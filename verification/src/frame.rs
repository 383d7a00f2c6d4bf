//! Frames and their wire format.
//!
//! All integers are big-endian.
//!
//! | field    | bytes  |
//! |----------|--------|
//! | conn id  | 4      |
//! | sequence | 8      |
//! | flags    | 1      |
//! | length   | 2      |
//! | payload  | length |

use crate::buf::{
    buffer_as_slice, buffer_freeze, buffer_put_slice, buffer_put_u16, buffer_put_u32,
    buffer_put_u64, buffer_put_u8, buffer_reserve, buffer_split_to, buffer_with_capacity,
    bytes_as_slice, bytes_content, bytes_mut_content, MAX_BUFFER,
};
use crate::text::string_from_utf8;
use crate::wire::{
    be_bytes, be_read, be_u16, be_value, lemma_be_bytes_len, lemma_be_round_trip,
    lemma_pow256_values,
};
use bytes::{Bytes, BytesMut};
use vstd::prelude::*;
use vstd::utf8::{decode_utf8, encode_utf8, valid_utf8};

verus! {

/// Opens a connection; the payload is a [`SynTarget`].
pub const FLAG_SYN: u8 = 0x01;

/// Carries bytes of a connection.
pub const FLAG_DATA: u8 = 0x02;

/// Ends one direction of a connection; the sequence number is the one that the
/// next data frame would have had.
pub const FLAG_FIN: u8 = 0x04;

/// Gives a connection up in both directions.
pub const FLAG_RST: u8 = 0x08;

/// Bytes before the payload.
pub const HEADER_LEN: usize = 4 + 8 + 1 + 2;

/// Largest payload that the length field can express.
pub const MAX_PAYLOAD: usize = 65535;

/// Smallest read size that a configuration may ask for.
pub const MIN_CHUNK: usize = 512;

/// Largest read size that a configuration may ask for.
pub const MAX_CHUNK: usize = 65535;

/// Largest number of chunks that a default reorder window holds.
pub const MAX_REORDER_WINDOW: usize = 512;

/// Largest number of bytes that a default reorder window holds, whatever the
/// number of chunks: a window of full frames would hold four times as much.
pub const MAX_REORDER_BYTES: usize = 8 * 1024 * 1024;

/// Largest number of connections whose frames wait for a SYN or an egress.
pub const MAX_PENDING_CIDS: usize = 256;

/// Largest number of bytes that wait for a SYN or an egress, over all connections.
pub const MAX_PENDING_BYTES: usize = 64 * 1024 * 1024;

/// A flag is set.
pub open spec fn flagged(flags: u8, flag: u8) -> bool {
    flags & flag != 0
}

/// Why bytes could not be written or read as frames.
#[derive(Debug, Clone, Copy, PartialEq, Eq, Structural)]
pub enum FrameError {
    /// The payload, of this length, does not fit the length field.
    PayloadTooLarge(usize),
    /// The SYN address, of this length, does not fit its length field.
    AddressTooLong(usize),
    /// The SYN payload ends before its fixed part.
    SynTooShort,
    /// The SYN payload ends before its address and port.
    SynTruncated,
    /// The SYN address is not UTF-8.
    SynNotUtf8,
    /// The decoder's buffer has no room for more bytes.
    BufferOverflow,
    /// The stream ended inside a frame, with this many bytes of it read.
    EofMidFrame(usize),
}

/// One frame.
#[derive(Debug)]
pub struct Frame {
    pub conn_id: u32,
    pub seq: u64,
    pub flags: u8,
    pub payload: Bytes,
}

impl Clone for Frame {
    fn clone(&self) -> (r: Self)
        ensures
            r@ == self@,
    {
        Frame {
            conn_id: self.conn_id,
            seq: self.seq,
            flags: self.flags,
            payload: self.payload.clone(),
        }
    }
}

/// A frame as mathematical values.
#[verifier::ext_equal]
pub struct FrameView {
    pub conn_id: u32,
    pub seq: u64,
    pub flags: u8,
    pub payload: Seq<u8>,
}

impl View for Frame {
    type V = FrameView;

    open spec fn view(&self) -> FrameView {
        FrameView {
            conn_id: self.conn_id,
            seq: self.seq,
            flags: self.flags,
            payload: bytes_content(self.payload),
        }
    }
}

impl FrameView {
    /// The frame has a wire form.
    pub open spec fn fits(self) -> bool {
        self.payload.len() <= MAX_PAYLOAD
    }

    /// The frame's bytes on the wire.
    pub open spec fn wire(self) -> Seq<u8> {
        be_bytes(self.conn_id as nat, 4) + be_bytes(self.seq as nat, 8) + seq![self.flags]
            + be_bytes(self.payload.len(), 2) + self.payload
    }

    pub open spec fn data(conn_id: u32, seq: u64, payload: Seq<u8>) -> FrameView {
        FrameView { conn_id, seq, flags: FLAG_DATA, payload }
    }

    pub open spec fn syn(conn_id: u32, payload: Seq<u8>) -> FrameView {
        FrameView { conn_id, seq: 0, flags: FLAG_SYN, payload }
    }

    pub open spec fn fin(conn_id: u32, seq: u64) -> FrameView {
        FrameView { conn_id, seq, flags: FLAG_FIN, payload: Seq::empty() }
    }

    pub open spec fn rst(conn_id: u32) -> FrameView {
        FrameView { conn_id, seq: 0, flags: FLAG_RST, payload: Seq::empty() }
    }
}

impl Frame {
    pub fn data(conn_id: u32, seq: u64, payload: Bytes) -> (r: Self)
        ensures
            r@ == FrameView::data(conn_id, seq, bytes_content(payload)),
    {
        Frame { conn_id, seq, flags: FLAG_DATA, payload }
    }

    pub fn syn(conn_id: u32, payload: Bytes) -> (r: Self)
        ensures
            r@ == FrameView::syn(conn_id, bytes_content(payload)),
    {
        Frame { conn_id, seq: 0, flags: FLAG_SYN, payload }
    }

    pub fn fin(conn_id: u32, seq: u64) -> (r: Self)
        ensures
            r@ == FrameView::fin(conn_id, seq),
    {
        Frame { conn_id, seq, flags: FLAG_FIN, payload: Bytes::new() }
    }

    pub fn rst(conn_id: u32) -> (r: Self)
        ensures
            r@ == FrameView::rst(conn_id),
    {
        Frame { conn_id, seq: 0, flags: FLAG_RST, payload: Bytes::new() }
    }

    /// The frame's wire form. A payload that the length field cannot express is
    /// refused: cut short, its tail would be read as the next header.
    pub fn encode(&self) -> (r: Result<Bytes, FrameError>)
        ensures
            self@.fits() ==> r is Ok && bytes_content(r->Ok_0) == self@.wire(),
            !self@.fits() ==> r == Err::<Bytes, FrameError>(
                FrameError::PayloadTooLarge(self@.payload.len() as usize),
            ),
    {
        let len: usize = self.payload.len();
        if len > MAX_PAYLOAD {
            return Err(FrameError::PayloadTooLarge(len));
        }
        let mut buf = buffer_with_capacity(HEADER_LEN + len);
        match self.encode_into(&mut buf) {
            Ok(_) => {
                proof {
                    assert(bytes_mut_content(buf) =~= self@.wire());
                }
                Ok(buffer_freeze(buf))
            },
            Err(e) => Err(e),
        }
    }

    /// Appends the frame's wire form to a buffer, which is left as it was when the
    /// frame has none.
    pub fn encode_into(&self, buf: &mut BytesMut) -> (r: Result<(), FrameError>)
        requires
            self@.fits() ==> bytes_mut_content(*old(buf)).len() + HEADER_LEN + self@.payload.len()
                <= MAX_BUFFER,
        ensures
            self@.fits() ==> r is Ok && bytes_mut_content(*final(buf)) == bytes_mut_content(
                *old(buf),
            ) + self@.wire(),
            !self@.fits() ==> r == Err::<(), FrameError>(
                FrameError::PayloadTooLarge(self@.payload.len() as usize),
            ) && bytes_mut_content(*final(buf)) == bytes_mut_content(*old(buf)),
    {
        let len: usize = self.payload.len();
        if len > MAX_PAYLOAD {
            return Err(FrameError::PayloadTooLarge(len));
        }
        proof {
            lemma_be_bytes_len(self.conn_id as nat, 4);
            lemma_be_bytes_len(self.seq as nat, 8);
            lemma_be_bytes_len(self@.payload.len(), 2);
        }
        buffer_reserve(buf, HEADER_LEN + len);
        buffer_put_u32(buf, self.conn_id);
        buffer_put_u64(buf, self.seq);
        buffer_put_u8(buf, self.flags);
        buffer_put_u16(buf, len as u16);
        buffer_put_slice(buf, bytes_as_slice(&self.payload));
        proof {
            assert(bytes_mut_content(*buf) =~= bytes_mut_content(*old(buf)) + self@.wire());
        }
        Ok(())
    }
}

/// Numbers the frames of one direction of a connection. The first number is 1.
pub struct FrameSource {
    conn_id: u32,
    seq: u64,
}

impl FrameSource {
    pub closed spec fn conn_id(&self) -> u32 {
        self.conn_id
    }

    /// The number of the next frame.
    pub closed spec fn seq(&self) -> u64 {
        self.seq
    }

    /// A direction in which nothing was sent yet.
    pub fn new(conn_id: u32) -> (r: Self)
        ensures
            r.conn_id() == conn_id,
            r.seq() == 1,
    {
        FrameSource { conn_id, seq: 1 }
    }

    /// The next frame, with a copy of the data.
    pub fn data(&self, data: &[u8]) -> (r: Frame)
        ensures
            r@ == FrameView::data(self.conn_id(), self.seq(), data@),
    {
        Frame::data(self.conn_id, self.seq, Bytes::copy_from_slice(data))
    }

    /// The next frame, with the payload as it is.
    pub fn payload(&self, payload: Bytes) -> (r: Frame)
        ensures
            r@ == FrameView::data(self.conn_id(), self.seq(), bytes_content(payload)),
    {
        Frame::data(self.conn_id, self.seq, payload)
    }

    /// Reports that the next frame was sent.
    pub fn sent(&mut self)
        ensures
            final(self).conn_id() == old(self).conn_id(),
            final(self).seq() == old(self).seq().wrapping_add(1),
    {
        self.seq = self.seq.wrapping_add(1);
    }

    /// The frame that ends the direction: it holds the number that the next data
    /// frame would have had.
    pub fn fin(&self) -> (r: Frame)
        ensures
            r@ == FrameView::fin(self.conn_id(), self.seq()),
    {
        Frame::fin(self.conn_id, self.seq)
    }
}

/// The data frames that carry a list of chunks, as a [`FrameSource`] numbers them.
pub open spec fn data_frames(conn_id: u32, chunks: Seq<Seq<u8>>) -> Seq<FrameView> {
    Seq::new(chunks.len(), |i: int| FrameView::data(conn_id, (i + 1) as u64, chunks[i]))
}

/// How many bytes the frame at the start of `s` takes, as its header says.
pub open spec fn announced_len(s: Seq<u8>) -> nat {
    HEADER_LEN as nat + be_value(s.subrange(13, 15))
}

/// A whole frame stands at the start of `s`.
pub open spec fn has_frame(s: Seq<u8>) -> bool {
    s.len() >= HEADER_LEN && s.len() >= announced_len(s)
}

/// The frame at the start of `s`.
pub open spec fn first_frame(s: Seq<u8>) -> FrameView {
    FrameView {
        conn_id: be_value(s.subrange(0, 4)) as u32,
        seq: be_value(s.subrange(4, 12)) as u64,
        flags: s[12],
        payload: s.subrange(HEADER_LEN as int, announced_len(s) as int),
    }
}

/// The whole frames at the start of `s`, and the bytes that follow them.
pub open spec fn parse(s: Seq<u8>) -> (Seq<FrameView>, Seq<u8>)
    decreases s.len(),
{
    if has_frame(s) {
        let (rest, tail) = parse(s.skip(announced_len(s) as int));
        (seq![first_frame(s)] + rest, tail)
    } else {
        (Seq::empty(), s)
    }
}

/// The wire form of a list of frames, one after the other.
pub open spec fn wire_all(frames: Seq<FrameView>) -> Seq<u8>
    decreases frames.len(),
{
    if frames.len() == 0 {
        Seq::empty()
    } else {
        frames[0].wire() + wire_all(frames.skip(1))
    }
}

/// A frame that is written is read back, and with it nothing of what follows.
pub proof fn law_frame_round_trip(f: FrameView, rest: Seq<u8>)
    requires
        f.fits(),
    ensures
        has_frame(f.wire() + rest),
        first_frame(f.wire() + rest) == f,
        (f.wire() + rest).skip(announced_len(f.wire() + rest) as int) == rest,
{
    let s = f.wire() + rest;
    let id = be_bytes(f.conn_id as nat, 4);
    let seq = be_bytes(f.seq as nat, 8);
    let len = be_bytes(f.payload.len(), 2);
    lemma_be_bytes_len(f.conn_id as nat, 4);
    lemma_be_bytes_len(f.seq as nat, 8);
    lemma_be_bytes_len(f.payload.len(), 2);
    lemma_pow256_values();
    lemma_be_round_trip(f.conn_id as nat, 4);
    lemma_be_round_trip(f.seq as nat, 8);
    lemma_be_round_trip(f.payload.len(), 2);
    assert(s.subrange(0, 4) =~= id);
    assert(s.subrange(4, 12) =~= seq);
    assert(s.subrange(13, 15) =~= len);
    assert(first_frame(s).payload =~= f.payload);
    assert(s.skip(announced_len(s) as int) =~= rest);
}

/// Frames that are written one after the other are read back in that order, and
/// nothing is left over.
pub proof fn law_stream_round_trip(frames: Seq<FrameView>)
    requires
        forall|i: int| 0 <= i < frames.len() ==> (#[trigger] frames[i]).fits(),
    ensures
        parse(wire_all(frames)) == (frames, Seq::<u8>::empty()),
    decreases frames.len(),
{
    if frames.len() == 0 {
        assert(!has_frame(Seq::<u8>::empty()));
    } else {
        let rest = frames.skip(1);
        assert forall|i: int| 0 <= i < rest.len() implies (#[trigger] rest[i]).fits() by {
            assert(rest[i] == frames[i + 1]);
        }
        law_frame_round_trip(frames[0], wire_all(rest));
        law_stream_round_trip(rest);
        assert(seq![frames[0]] + rest =~= frames);
    }
}

/// It does not matter how a stream is cut into reads: the frames of two runs of
/// bytes together are the frames of the first run, then those of what it left over
/// together with the second.
pub proof fn law_reads_may_be_cut_anywhere(a: Seq<u8>, b: Seq<u8>)
    ensures
        parse(a + b) == ({
            let (first, tail) = parse(a);
            let (second, left) = parse(tail + b);
            (first + second, left)
        }),
    decreases a.len(),
{
    let s = a + b;
    if has_frame(a) {
        assert(s.subrange(13, 15) =~= a.subrange(13, 15));
        let n = announced_len(a) as int;
        assert(s.subrange(0, 4) =~= a.subrange(0, 4));
        assert(s.subrange(4, 12) =~= a.subrange(4, 12));
        assert(first_frame(s).payload =~= first_frame(a).payload);
        assert(s.skip(n) =~= a.skip(n) + b);
        law_reads_may_be_cut_anywhere(a.skip(n), b);
        let (first, tail) = parse(a.skip(n));
        let (second, left) = parse(tail + b);
        assert(seq![first_frame(a)] + first + second =~= seq![first_frame(a)] + (first + second));
    } else {
        let (second, left) = parse(s);
        assert(Seq::<FrameView>::empty() + second =~= second);
    }
}

/// The protocol number of TCP in a [`SynTarget`].
pub const PROTO_TCP: u8 = 0x06;

/// The protocol number of UDP in a [`SynTarget`].
pub const PROTO_UDP: u8 = 0x11;

/// What a SYN frame asks for: a protocol, a host and a port.
#[derive(Debug)]
pub struct SynTarget {
    pub proto: u8,
    pub address: String,
    pub port: u16,
}

impl Clone for SynTarget {
    fn clone(&self) -> (r: Self)
        ensures
            r@ == self@,
    {
        SynTarget { proto: self.proto, address: self.address.clone(), port: self.port }
    }
}

/// A [`SynTarget`] as mathematical values.
#[verifier::ext_equal]
pub struct SynView {
    pub proto: u8,
    pub address: Seq<char>,
    pub port: u16,
}

impl View for SynTarget {
    type V = SynView;

    open spec fn view(&self) -> SynView {
        SynView { proto: self.proto, address: self.address@, port: self.port }
    }
}

impl SynView {
    /// The address has a length that its length field can express.
    pub open spec fn fits(self) -> bool {
        encode_utf8(self.address).len() <= u16::MAX
    }

    /// The SYN payload: protocol, length of the address, address, port.
    pub open spec fn wire(self) -> Seq<u8> {
        seq![self.proto] + be_bytes(encode_utf8(self.address).len(), 2) + encode_utf8(self.address)
            + be_bytes(self.port as nat, 2)
    }
}

/// Reading a SYN payload. Bytes past the port are ignored.
pub open spec fn read_syn(p: Seq<u8>) -> Result<SynView, FrameError> {
    let n = be_value(p.subrange(1, 3)) as int;
    if p.len() < 5 {
        Err(FrameError::SynTooShort)
    } else if p.len() < 5 + n {
        Err(FrameError::SynTruncated)
    } else if !valid_utf8(p.subrange(3, 3 + n)) {
        Err(FrameError::SynNotUtf8)
    } else {
        Ok(
            SynView {
                proto: p[0],
                address: decode_utf8(p.subrange(3, 3 + n)),
                port: be_value(p.subrange(3 + n, 5 + n)) as u16,
            },
        )
    }
}

impl SynTarget {
    /// The SYN payload. An address that its length field cannot express is refused:
    /// cut short, it would spoil the payload.
    pub fn encode(&self) -> (r: Result<Bytes, FrameError>)
        ensures
            self@.fits() ==> r is Ok && bytes_content(r->Ok_0) == self@.wire(),
            !self@.fits() ==> r == Err::<Bytes, FrameError>(
                FrameError::AddressTooLong(encode_utf8(self.address@).len() as usize),
            ),
    {
        let addr: &[u8] = self.address.as_str().as_bytes();
        let n: usize = addr.len();
        if n > 65535 {
            return Err(FrameError::AddressTooLong(n));
        }
        proof {
            lemma_be_bytes_len(n as nat, 2);
            lemma_be_bytes_len(self.port as nat, 2);
        }
        let mut buf = buffer_with_capacity(1 + 2 + n + 2);
        buffer_put_u8(&mut buf, self.proto);
        buffer_put_u16(&mut buf, n as u16);
        buffer_put_slice(&mut buf, addr);
        buffer_put_u16(&mut buf, self.port);
        proof {
            assert(bytes_mut_content(buf) =~= self@.wire());
        }
        Ok(buffer_freeze(buf))
    }

    /// Reads a SYN payload.
    pub fn decode(payload: &[u8]) -> (r: Result<Self, FrameError>)
        ensures
            r is Ok <==> read_syn(payload@) is Ok,
            r is Ok ==> r->Ok_0@ == read_syn(payload@)->Ok_0,
            r is Err ==> r->Err_0 == read_syn(payload@)->Err_0,
    {
        if payload.len() < 5 {
            return Err(FrameError::SynTooShort);
        }
        let n: usize = be_u16(payload[1], payload[2]) as usize;
        proof {
            assert(payload@.subrange(1, 3) =~= seq![payload@[1], payload@[2]]);
        }
        if payload.len() < 5 + n {
            return Err(FrameError::SynTruncated);
        }
        let addr = vstd::slice::slice_to_vec(vstd::slice::slice_subrange(payload, 3, 3 + n));
        let port: u16 = be_u16(payload[3 + n], payload[4 + n]);
        proof {
            assert(payload@.subrange(3 + n, 5 + n) =~= seq![payload@[3 + n], payload@[4 + n]]);
        }
        match string_from_utf8(addr) {
            Some(address) => Ok(SynTarget { proto: payload[0], address, port }),
            None => Err(FrameError::SynNotUtf8),
        }
    }
}

/// What a SYN asks for is read back from its payload, whatever follows it.
pub proof fn law_syn_round_trip(t: SynView, rest: Seq<u8>)
    requires
        t.fits(),
    ensures
        read_syn(t.wire() + rest) == Ok::<SynView, FrameError>(t),
{
    let p = t.wire() + rest;
    let addr = encode_utf8(t.address);
    let n = addr.len() as int;
    lemma_be_bytes_len(addr.len(), 2);
    lemma_be_bytes_len(t.port as nat, 2);
    lemma_pow256_values();
    lemma_be_round_trip(addr.len(), 2);
    lemma_be_round_trip(t.port as nat, 2);
    assert(p.subrange(1, 3) =~= be_bytes(addr.len(), 2));
    assert(p.subrange(3, 3 + n) =~= addr);
    assert(p.subrange(3 + n, 5 + n) =~= be_bytes(t.port as nat, 2));
    vstd::utf8::encode_utf8_valid_utf8(t.address);
    vstd::utf8::encode_utf8_decode_utf8(t.address);
}

/// Most bytes that a [`FrameDecoder`] holds: one frame of the largest size and two
/// reads' worth of headroom.
pub const MAX_DECODER_BUF: usize = HEADER_LEN + MAX_PAYLOAD + 16384;

/// Most bytes that a [`FrameDecoder`] asks for at once.
pub const READ_BLOCK: usize = 8192;

/// What a [`FrameDecoder`] has to say next.
#[derive(Debug)]
pub enum Decoded {
    /// The next frame.
    Frame(Frame),
    /// No whole frame is there: read some bytes, at most this many.
    NeedData(usize),
}

/// Turns a byte stream into frames.
///
/// The caller reads the stream: it asks for the next frame, feeds what it read
/// when there is none yet, and reports the end of the stream.
pub struct FrameDecoder {
    buf: BytesMut,
}

impl View for FrameDecoder {
    type V = Seq<u8>;

    /// The bytes that were fed and are not part of a returned frame.
    closed spec fn view(&self) -> Seq<u8> {
        bytes_mut_content(self.buf)
    }
}

impl FrameDecoder {
    /// The buffer is within its limit.
    pub open spec fn wf(&self) -> bool {
        self@.len() <= MAX_DECODER_BUF
    }

    /// A decoder at the start of a stream.
    pub fn new() -> (r: Self)
        ensures
            r.wf(),
            r@ == Seq::<u8>::empty(),
    {
        FrameDecoder { buf: buffer_with_capacity(16384) }
    }

    /// Takes the next frame off the buffer, or says how much to read. What it asks
    /// for is never nothing and always fits: a buffer without a whole frame at its
    /// start is shorter than the largest frame.
    pub fn try_next(&mut self) -> (r: Decoded)
        requires
            old(self).wf(),
        ensures
            final(self).wf(),
            has_frame(old(self)@) ==> {
                &&& r matches Decoded::Frame(f)
                &&& f@ == first_frame(old(self)@)
                &&& final(self)@ == old(self)@.skip(announced_len(old(self)@) as int)
            },
            !has_frame(old(self)@) ==> {
                &&& r matches Decoded::NeedData(n)
                &&& n == READ_BLOCK
                &&& final(self)@ == old(self)@
                &&& final(self)@.len() + n <= MAX_DECODER_BUF
            },
    {
        let ghost s = self@;
        let head: &[u8] = buffer_as_slice(&self.buf);
        let have: usize = head.len();
        if have >= HEADER_LEN {
            let payload_len: usize = be_u16(head[13], head[14]) as usize;
            proof {
                assert(s.subrange(13, 15) =~= seq![s[13], s[14]]);
            }
            if have >= HEADER_LEN + payload_len {
                let conn_id: u64 = be_read(head, 0, 4);
                let seq: u64 = be_read(head, 4, 12);
                let flags: u8 = head[12];
                proof {
                    crate::wire::lemma_be_round_trip_back(s.subrange(0, 4));
                    lemma_pow256_values();
                }
                let _ = buffer_split_to(&mut self.buf, HEADER_LEN);
                let payload = buffer_freeze(buffer_split_to(&mut self.buf, payload_len));
                let f = Frame { conn_id: conn_id as u32, seq, flags, payload };
                proof {
                    assert(f@.payload =~= first_frame(s).payload);
                    assert(self@ =~= s.skip(announced_len(s) as int));
                }
                return Decoded::Frame(f);
            }
        }
        Decoded::NeedData(READ_BLOCK)
    }

    /// Adds bytes that were read from the stream. More than the buffer may hold are
    /// refused, and nothing is added.
    pub fn feed(&mut self, data: &[u8]) -> (r: Result<(), FrameError>)
        requires
            old(self).wf(),
        ensures
            final(self).wf(),
            old(self)@.len() + data@.len() <= MAX_DECODER_BUF ==> r is Ok && final(self)@ == old(
                self,
            )@ + data@,
            old(self)@.len() + data@.len() > MAX_DECODER_BUF ==> r == Err::<(), FrameError>(
                FrameError::BufferOverflow,
            ) && final(self)@ == old(self)@,
    {
        let have: usize = buffer_as_slice(&self.buf).len();
        if data.len() > MAX_DECODER_BUF - have {
            return Err(FrameError::BufferOverflow);
        }
        buffer_reserve(&mut self.buf, data.len());
        buffer_put_slice(&mut self.buf, data);
        Ok(())
    }

    /// Whether the stream may end here: not inside a frame.
    pub fn finish(&self) -> (r: Result<(), FrameError>)
        requires
            self.wf(),
        ensures
            self@.len() == 0 ==> r == Ok::<(), FrameError>(()),
            self@.len() > 0 ==> r == Err::<(), FrameError>(
                FrameError::EofMidFrame(self@.len() as usize),
            ),
    {
        let have: usize = buffer_as_slice(&self.buf).len();
        if have == 0 {
            Ok(())
        } else {
            Err(FrameError::EofMidFrame(have))
        }
    }
}

impl Default for FrameDecoder {
    fn default() -> (r: Self)
        ensures
            r.wf(),
            r@ == Seq::<u8>::empty(),
    {
        Self::new()
    }
}

} // verus!
