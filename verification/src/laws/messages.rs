//! Bytes and time: where each value stands in a message, and how spans are measured.

use crate::clock::{span, span_secs, SECOND};
use crate::frame::{
    announced_len, data_frames, first_frame, flagged, has_frame, parse, read_syn, wire_all,
    FrameError, FrameView, SynView, FLAG_DATA, FLAG_FIN, FLAG_RST, FLAG_SYN, HEADER_LEN, MAX_CHUNK,
    MAX_DECODER_BUF, MAX_PAYLOAD, MAX_REORDER_BYTES, MAX_REORDER_WINDOW, MIN_CHUNK, PROTO_TCP,
    PROTO_UDP, READ_BLOCK,
};
use crate::wire::{
    be_bytes, be_value, lemma_be_bytes_len, lemma_be_round_trip, lemma_be_round_trip_back,
    lemma_be_value_2, lemma_pow256_values,
};
use vstd::prelude::*;
use vstd::utf8::{decode_utf8, encode_utf8, valid_utf8};

verus! {

// ── Time ──────────────────────────────────────────────────────────────

/// A span is the later time less the earlier one, and nothing where the clock seems to have
/// gone back; in seconds it is rounded down.
pub proof fn law_spans(now: u64, since: u64)
    ensures
        now >= since ==> span(now, since) == now - since,
        now <= since ==> span(now, since) == 0,
        span_secs(now, since) * 1_000_000_000 <= span(now, since),
        span(now, since) < (span_secs(now, since) + 1) * 1_000_000_000,
        SECOND == 1_000_000_000,
{
}

// ── Numbers ───────────────────────────────────────────────────────────

/// The most significant byte comes first: one more byte makes a number 256 times as large
/// and adds to it.
pub proof fn law_big_endian(s: Seq<u8>, b: u8)
    ensures
        be_value(Seq::empty()) == 0,
        be_value(s.push(b)) == 256 * be_value(s) + b,
{
    assert(s.push(b).drop_last() =~= s);
}

/// A number that fits into 2, 4 or 8 bytes is written into as many, and read back.
pub proof fn law_numbers_are_read_back(n: nat)
    ensures
        be_bytes(n, 2).len() == 2 && be_bytes(n, 4).len() == 4 && be_bytes(n, 8).len() == 8,
        n < 0x1_0000 ==> be_value(be_bytes(n, 2)) == n,
        n < 0x1_0000_0000 ==> be_value(be_bytes(n, 4)) == n,
        n < 0x1_0000_0000_0000_0000 ==> be_value(be_bytes(n, 8)) == n,
{
    lemma_pow256_values();
    lemma_be_bytes_len(n, 2);
    lemma_be_bytes_len(n, 4);
    lemma_be_bytes_len(n, 8);
    if n < 0x1_0000 {
        lemma_be_round_trip(n, 2);
    }
    if n < 0x1_0000_0000 {
        lemma_be_round_trip(n, 4);
    }
    if n < 0x1_0000_0000_0000_0000 {
        lemma_be_round_trip(n, 8);
    }
}

// ── Frames ────────────────────────────────────────────────────────────

/// The numbers of the frame format.
pub proof fn law_frame_numbers()
    ensures
        FLAG_SYN == 1 && FLAG_DATA == 2 && FLAG_FIN == 4 && FLAG_RST == 8,
        HEADER_LEN == 15 && MAX_PAYLOAD == 65535,
        MIN_CHUNK == 512 && MAX_CHUNK == 65535,
        MAX_REORDER_WINDOW == 512 && MAX_REORDER_BYTES == 8_388_608,
        PROTO_TCP == 6 && PROTO_UDP == 17,
        MAX_DECODER_BUF == 81_934 && READ_BLOCK == 8192,
{
}

/// A flag is one bit.
pub proof fn law_flags(flags: u8, flag: u8)
    ensures
        flagged(flags, flag) <==> flags & flag != 0,
{
}

/// The kinds of frames.
pub proof fn law_frame_kinds(id: u32, seq: u64, payload: Seq<u8>)
    ensures
        ({
            let f = FrameView::data(id, seq, payload);
            f.conn_id == id && f.seq == seq && f.flags == 2 && f.payload == payload
        }),
        ({
            let f = FrameView::syn(id, payload);
            f.conn_id == id && f.seq == 0 && f.flags == 1 && f.payload == payload
        }),
        ({
            let f = FrameView::fin(id, seq);
            f.conn_id == id && f.seq == seq && f.flags == 4 && f.payload.len() == 0
        }),
        ({
            let f = FrameView::rst(id);
            f.conn_id == id && f.seq == 0 && f.flags == 8 && f.payload.len() == 0
        }),
{
}

/// Where each value stands in a frame: four bytes of id, eight of number, one of flags, two
/// of length, then the payload.
pub proof fn law_frame_layout(f: FrameView)
    requires
        f.payload.len() <= 65535,
    ensures
        f.fits(),
        f.wire().len() == 15 + f.payload.len(),
        be_value(f.wire().subrange(0, 4)) == f.conn_id,
        be_value(f.wire().subrange(4, 12)) == f.seq,
        f.wire()[12] == f.flags,
        256 * f.wire()[13] + f.wire()[14] == f.payload.len(),
        f.wire().skip(15) == f.payload,
{
    let w = f.wire();
    lemma_pow256_values();
    lemma_be_bytes_len(f.conn_id as nat, 4);
    lemma_be_bytes_len(f.seq as nat, 8);
    lemma_be_bytes_len(f.payload.len(), 2);
    lemma_be_round_trip(f.conn_id as nat, 4);
    lemma_be_round_trip(f.seq as nat, 8);
    lemma_be_round_trip(f.payload.len(), 2);
    assert(w.subrange(0, 4) =~= be_bytes(f.conn_id as nat, 4));
    assert(w.subrange(4, 12) =~= be_bytes(f.seq as nat, 8));
    assert(seq![w[13], w[14]] =~= be_bytes(f.payload.len(), 2));
    lemma_be_value_2(w[13], w[14]);
    assert(w.skip(15) =~= f.payload);
}

/// A payload of more than 65535 bytes has no wire form.
pub proof fn law_large_payloads_do_not_fit(f: FrameView)
    ensures
        f.fits() <==> f.payload.len() <= 65535,
{
}

/// A whole frame is there as soon as its header and as many bytes as that says are, and not
/// before; it holds what stands at those places.
pub proof fn law_when_a_frame_is_there(s: Seq<u8>)
    ensures
        has_frame(s) <==> s.len() >= 15 && s.len() >= 15 + 256 * s[13] + s[14],
        s.len() >= 15 ==> announced_len(s) == 15 + 256 * s[13] + s[14],
        has_frame(s) ==> ({
            let f = first_frame(s);
            let n = 256 * s[13] + s[14];
            &&& f.conn_id == be_value(s.subrange(0, 4))
            &&& f.seq == be_value(s.subrange(4, 12))
            &&& f.flags == s[12]
            &&& f.payload == s.subrange(15, 15 + n)
        }),
{
    if s.len() >= 15 {
        assert(s.subrange(13, 15) =~= seq![s[13], s[14]]);
        lemma_be_value_2(s[13], s[14]);
        lemma_pow256_values();
        lemma_be_round_trip_back(s.subrange(0, 4));
        lemma_be_round_trip_back(s.subrange(4, 12));
    }
}

/// Reading a stream loses and adds nothing: the frames that are read, written again one
/// after the other, and what is left over, are the bytes of the stream. What is left over
/// does not begin with a whole frame.
pub proof fn law_reading_loses_nothing(s: Seq<u8>)
    ensures
        wire_all(parse(s).0) + parse(s).1 == s,
        !has_frame(parse(s).1),
        forall|i: int|
            0 <= i < parse(s).0.len() ==> (#[trigger] parse(s).0[i]).payload.len() <= 65535,
    decreases s.len(),
{
    if has_frame(s) {
        let n = announced_len(s) as int;
        let f = first_frame(s);
        let (rest, tail) = parse(s.skip(n));
        law_reading_loses_nothing(s.skip(n));
        law_when_a_frame_is_there(s);
        lemma_be_round_trip_back(s.subrange(0, 4));
        lemma_be_round_trip_back(s.subrange(4, 12));
        lemma_be_round_trip_back(s.subrange(13, 15));
        lemma_pow256_values();
        assert(s.subrange(13, 15) =~= seq![s[13], s[14]]);
        lemma_be_value_2(s[13], s[14]);
        assert(f.wire() =~= s.take(n));
        let all = seq![f] + rest;
        assert(all[0] == f && all.skip(1) =~= rest);
        assert(wire_all(all) == f.wire() + wire_all(rest));
        assert(f.wire() + wire_all(rest) + tail =~= s.take(n) + (wire_all(rest) + tail));
        assert(s.take(n) + s.skip(n) =~= s);
        assert forall|i: int| 0 <= i < all.len() implies (#[trigger] all[i]).payload.len()
            <= 65535 by {
            if i > 0 {
                assert(all[i] == rest[i - 1]);
            }
        }
    } else {
        assert(wire_all(Seq::empty()) + s =~= s);
    }
}

/// The wire forms of frames follow one another.
pub proof fn law_frames_follow_one_another(f: FrameView, rest: Seq<FrameView>)
    ensures
        wire_all(Seq::empty()) == Seq::<u8>::empty(),
        wire_all(seq![f] + rest) == f.wire() + wire_all(rest),
{
    assert((seq![f] + rest).skip(1) =~= rest);
}

/// Chunks are numbered from 1 on, in their order, each in a data frame of its own.
pub proof fn law_chunks_are_numbered(id: u32, chunks: Seq<Seq<u8>>, i: int)
    requires
        0 <= i < chunks.len(),
        chunks.len() <= u64::MAX,
    ensures
        data_frames(id, chunks).len() == chunks.len(),
        data_frames(id, chunks)[i].conn_id == id,
        data_frames(id, chunks)[i].seq == i + 1,
        data_frames(id, chunks)[i].flags == 2,
        data_frames(id, chunks)[i].payload == chunks[i],
{
}

// ── What a SYN asks for ───────────────────────────────────────────────

/// Where each value stands in a SYN: one byte of protocol, two of the length of the host,
/// the host, two of port.
pub proof fn law_syn_layout(t: SynView)
    requires
        encode_utf8(t.address).len() <= 65535,
    ensures
        ({
            let w = t.wire();
            let n = encode_utf8(t.address).len() as int;
            &&& t.fits()
            &&& w.len() == 5 + n
            &&& w[0] == t.proto
            &&& 256 * w[1] + w[2] == n
            &&& w.subrange(3, 3 + n) == encode_utf8(t.address)
            &&& 256 * w[3 + n] + w[4 + n] == t.port
        }),
{
    let w = t.wire();
    let name = encode_utf8(t.address);
    let n = name.len() as int;
    lemma_pow256_values();
    lemma_be_bytes_len(name.len(), 2);
    lemma_be_bytes_len(t.port as nat, 2);
    lemma_be_round_trip(name.len(), 2);
    lemma_be_round_trip(t.port as nat, 2);
    assert(seq![w[1], w[2]] =~= be_bytes(name.len(), 2));
    assert(seq![w[3 + n], w[4 + n]] =~= be_bytes(t.port as nat, 2));
    lemma_be_value_2(w[1], w[2]);
    lemma_be_value_2(w[3 + n], w[4 + n]);
    assert(w.subrange(3, 3 + n) =~= name);
}

/// A host of more than 65535 bytes fits into no SYN.
pub proof fn law_long_hosts_do_not_fit(t: SynView)
    ensures
        t.fits() <==> encode_utf8(t.address).len() <= 65535,
{
}

/// What is read from a SYN, and why some cannot be read: fewer than five bytes, fewer than
/// the length says, or a host that is not UTF-8; in that order.
pub proof fn law_reading_a_syn(p: Seq<u8>)
    ensures
        p.len() < 5 ==> read_syn(p) == Err::<SynView, FrameError>(FrameError::SynTooShort),
        p.len() >= 5 ==> ({
            let n = 256 * p[1] + p[2];
            &&& p.len() < 5 + n ==> read_syn(p) == Err::<SynView, FrameError>(
                FrameError::SynTruncated,
            )
            &&& p.len() >= 5 + n && !valid_utf8(p.subrange(3, 3 + n)) ==> read_syn(p) == Err::<
                SynView,
                FrameError,
            >(FrameError::SynNotUtf8)
            &&& p.len() >= 5 + n && valid_utf8(p.subrange(3, 3 + n)) ==> ({
                &&& read_syn(p) is Ok
                &&& read_syn(p)->Ok_0.proto == p[0]
                &&& read_syn(p)->Ok_0.address == decode_utf8(p.subrange(3, 3 + n))
                &&& read_syn(p)->Ok_0.port == 256 * p[3 + n] + p[4 + n]
            })
        }),
{
    if p.len() >= 5 {
        let n = 256 * p[1] + p[2];
        assert(p.subrange(1, 3) =~= seq![p[1], p[2]]);
        lemma_be_value_2(p[1], p[2]);
        if p.len() >= 5 + n {
            assert(p.subrange(3 + n, 5 + n) =~= seq![p[3 + n], p[4 + n]]);
            lemma_be_value_2(p[3 + n], p[4 + n]);
        }
    }
}

} // verus!
