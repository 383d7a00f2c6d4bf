use bytes::{Bytes, BytesMut};
use round_robin::frame::{
    Decoded, Frame, FrameDecoder, FrameError, FrameSource, SynTarget, FLAG_DATA, FLAG_FIN,
    FLAG_RST, FLAG_SYN, HEADER_LEN, MAX_DECODER_BUF, MAX_PAYLOAD, PROTO_TCP, PROTO_UDP,
    READ_BLOCK,
};

/// Takes the next frame, feeding the decoder from a list of bytes.
fn next(decoder: &mut FrameDecoder, input: &mut Vec<u8>) -> Result<Option<Frame>, FrameError> {
    loop {
        match decoder.try_next() {
            Decoded::Frame(f) => return Ok(Some(f)),
            Decoded::NeedData(n) => {
                if input.is_empty() {
                    return decoder.finish().map(|_| None);
                }
                let n = n.min(input.len());
                let part: Vec<u8> = input.drain(..n).collect();
                decoder.feed(&part)?;
            }
        }
    }
}

#[test]
fn decoder_single_frame() {
    let f = Frame::data(1, 42, Bytes::from_static(b"payload"));
    let mut encoded = f.encode().unwrap().to_vec();
    let mut decoder = FrameDecoder::new();
    let got = next(&mut decoder, &mut encoded).unwrap().unwrap();
    assert_eq!(got.conn_id, 1);
    assert_eq!(got.seq, 42);
    assert_eq!(got.flags, FLAG_DATA);
    assert_eq!(&got.payload[..], b"payload");
    assert!(next(&mut decoder, &mut encoded).unwrap().is_none());
}

#[test]
fn decoder_multiple_frames() {
    let f1 = Frame::data(1, 1, Bytes::from_static(b"aaa"));
    let f2 = Frame::data(1, 2, Bytes::from_static(b"bb"));
    let mut data = Vec::new();
    data.extend_from_slice(&f1.encode().unwrap());
    data.extend_from_slice(&f2.encode().unwrap());
    let mut decoder = FrameDecoder::new();
    let g1 = next(&mut decoder, &mut data).unwrap().unwrap();
    let g2 = next(&mut decoder, &mut data).unwrap().unwrap();
    assert_eq!(&g1.payload[..], b"aaa");
    assert_eq!(&g2.payload[..], b"bb");
}

#[test]
fn decoder_tiny_reads() {
    let target = SynTarget { proto: PROTO_TCP, address: "example.com".into(), port: 443 };
    let f = Frame::syn(7, target.encode().unwrap());
    let encoded = f.encode().unwrap();
    let mut decoder = FrameDecoder::new();
    for (i, b) in encoded.iter().enumerate() {
        assert!(matches!(decoder.try_next(), Decoded::NeedData(READ_BLOCK)));
        assert_eq!(
            decoder.finish(),
            if i == 0 { Ok(()) } else { Err(FrameError::EofMidFrame(i)) }
        );
        decoder.feed(&[*b]).unwrap();
    }
    match decoder.try_next() {
        Decoded::Frame(frame) => {
            assert_eq!(frame.conn_id, 7);
            assert_eq!(frame.flags, FLAG_SYN);
            let parsed = SynTarget::decode(&frame.payload).unwrap();
            assert_eq!(parsed.address, "example.com");
        }
        Decoded::NeedData(_) => panic!("decoder never returned a frame"),
    }
}

#[test]
fn frame_roundtrip() {
    let f = Frame::data(42, 7, Bytes::from_static(b"hello"));
    let encoded = f.encode().unwrap();
    assert_eq!(encoded.len(), HEADER_LEN + 5);
    let conn_id = u32::from_be_bytes([encoded[0], encoded[1], encoded[2], encoded[3]]);
    let seq = u64::from_be_bytes(encoded[4..12].try_into().unwrap());
    let flags = encoded[12];
    let len = u16::from_be_bytes([encoded[13], encoded[14]]) as usize;
    assert_eq!(conn_id, 42);
    assert_eq!(seq, 7);
    assert_eq!(flags, FLAG_DATA);
    assert_eq!(len, 5);
    assert_eq!(&encoded[15..], b"hello");
}

#[test]
fn encode_rejects_oversized_payload() {
    let f = Frame::data(1, 1, Bytes::from(vec![0u8; MAX_PAYLOAD + 1]));
    assert!(f.encode().is_err());
    let ok = Frame::data(1, 1, Bytes::from(vec![0u8; MAX_PAYLOAD]));
    assert!(ok.encode().is_ok());
}

#[test]
fn syn_target_roundtrip() {
    let t = SynTarget { proto: PROTO_TCP, address: "example.com".into(), port: 443 };
    let encoded = t.encode().unwrap();
    let decoded = SynTarget::decode(&encoded).unwrap();
    assert_eq!(decoded.proto, PROTO_TCP);
    assert_eq!(decoded.address, "example.com");
    assert_eq!(decoded.port, 443);
}

#[test]
fn wire_form_byte_by_byte() {
    let f = Frame {
        conn_id: 0x0102_0304,
        seq: 0x0506_0708_090a_0b0c,
        flags: FLAG_FIN,
        payload: Bytes::from_static(b"\xfe"),
    };
    let mut buf = BytesMut::new();
    buf.extend_from_slice(b"x");
    f.encode_into(&mut buf).unwrap();
    assert_eq!(&buf[..], b"x\x01\x02\x03\x04\x05\x06\x07\x08\x09\x0a\x0b\x0c\x04\x00\x01\xfe");
    let big = Frame::data(1, 1, Bytes::from(vec![0u8; MAX_PAYLOAD + 1]));
    assert_eq!(big.encode_into(&mut buf), Err(FrameError::PayloadTooLarge(65536)));
    assert_eq!(buf.len(), 17);
    assert_eq!(big.encode(), Err(FrameError::PayloadTooLarge(65536)));
}

#[test]
fn kinds_of_frames() {
    let f = Frame::fin(3, 9);
    assert_eq!((f.conn_id, f.seq, f.flags, f.payload.len()), (3, 9, FLAG_FIN, 0));
    let f = Frame::rst(3);
    assert_eq!((f.conn_id, f.seq, f.flags, f.payload.len()), (3, 0, FLAG_RST, 0));
    let f = Frame::syn(3, Bytes::from_static(b"ab")).clone();
    assert_eq!((f.conn_id, f.seq, f.flags, &f.payload[..]), (3, 0, FLAG_SYN, &b"ab"[..]));
}

#[test]
fn syn_payload_errors() {
    let t = SynTarget { proto: PROTO_UDP, address: "é".into(), port: 0x1234 };
    assert_eq!(&t.encode().unwrap()[..], b"\x11\x00\x02\xc3\xa9\x12\x34");
    assert_eq!(SynTarget::decode(b"\x11\x00\x02\xc3\xa9\x12\x34rest").unwrap().address, "é");
    assert_eq!(SynTarget::decode(b"\x11\x00\x00\x12\x34").unwrap().port, 0x1234);
    assert_eq!(SynTarget::decode(b"\x11\x00\x00\x12").err(), Some(FrameError::SynTooShort));
    let cut = SynTarget::decode(b"\x11\x00\x02\xc3\xa9\x12").err();
    assert_eq!(cut, Some(FrameError::SynTruncated));
    let bad = SynTarget::decode(b"\x11\x00\x01\xff\x12\x34").err();
    assert_eq!(bad, Some(FrameError::SynNotUtf8));
    let long = SynTarget { proto: PROTO_TCP, address: "a".repeat(65536), port: 1 };
    assert_eq!(long.encode().err(), Some(FrameError::AddressTooLong(65536)));
    let fits = SynTarget { proto: PROTO_TCP, address: "a".repeat(65535), port: 1 };
    let clone = fits.clone();
    assert_eq!(SynTarget::decode(&clone.encode().unwrap()).unwrap().address, fits.address);
}

#[test]
fn decoder_holds_the_largest_frame_and_no_more() {
    let f = Frame::data(1, 1, Bytes::from(vec![7u8; MAX_PAYLOAD]));
    let encoded = f.encode().unwrap();
    let mut decoder = FrameDecoder::default();
    decoder.feed(&encoded).unwrap();
    decoder.feed(&encoded[..16384]).unwrap();
    assert_eq!(encoded.len() + 16384, MAX_DECODER_BUF);
    assert_eq!(decoder.feed(&[0]), Err(FrameError::BufferOverflow));
    let mut rest = encoded[16384..].to_vec();
    assert_eq!(next(&mut decoder, &mut rest).unwrap().unwrap().payload.len(), MAX_PAYLOAD);
    let second = next(&mut decoder, &mut rest).unwrap().unwrap();
    assert!(second.payload.iter().all(|b| *b == 7));
    assert_eq!(decoder.finish(), Ok(()));
}

#[test]
fn decoder_reports_a_cut_stream() {
    let f = Frame::data(1, 1, Bytes::from_static(b"abc"));
    let mut cut = f.encode().unwrap()[..17].to_vec();
    let mut decoder = FrameDecoder::new();
    let end = next(&mut decoder, &mut cut);
    assert_eq!(end.err(), Some(FrameError::EofMidFrame(17)));
}

#[test]
fn source_numbers_frames_from_one() {
    let mut source = FrameSource::new(9);
    let first = source.data(b"ab");
    assert_eq!((first.conn_id, first.seq, first.flags), (9, 1, FLAG_DATA));
    assert_eq!(&first.payload[..], b"ab");
    assert_eq!(source.data(b"ab").seq, 1);
    source.sent();
    assert_eq!(source.payload(Bytes::from_static(b"c")).seq, 2);
    source.sent();
    let fin = source.fin();
    assert_eq!((fin.seq, fin.flags), (3, FLAG_FIN));
}
