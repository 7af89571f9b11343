use secure_transport::errors::Fault;
use secure_transport::frame::serialize_frame;
use secure_transport::frame::FrameCodec;

fn feed_chunked(codec: &mut FrameCodec, bytes: &[u8], chunk: usize) -> Vec<Vec<u8>> {
    let mut out = Vec::new();
    let mut i = 0;
    while i < bytes.len() {
        let end = (i + chunk).min(bytes.len());
        out.extend(codec.push_bytes(&bytes[i..end]).expect("stream must stay well-formed"));
        i = end;
    }
    out
}

#[test]
fn serialize_prepends_big_endian_length() {
    let f = serialize_frame(b"abc");
    assert_eq!(f, vec![0, 0, 0, 7, b'a', b'b', b'c']);
    let empty = serialize_frame(b"");
    assert_eq!(empty, vec![0, 0, 0, 4]);
}

#[test]
fn length_counts_header_and_payload() {
    // 300 payload bytes: the prefix encodes 304 = 0x0000_0130, big-endian.
    let payload = vec![9u8; 300];
    let f = serialize_frame(&payload);
    assert_eq!(&f[..4], &[0x00, 0x00, 0x01, 0x30]);
    assert_eq!(f.len(), 304);
}

#[test]
fn round_trip_single_chunk() {
    let payloads: [&[u8]; 4] = [b"", b"x", b"hello world", &[0u8; 512]];
    for p in payloads {
        let mut codec = FrameCodec::new();
        let frames = codec.push_bytes(&serialize_frame(p)).unwrap();
        assert_eq!(frames.len(), 1);
        assert_eq!(frames[0], p.to_vec());
    }
}

#[test]
fn round_trip_all_chunk_sizes() {
    let sizes = [0usize, 1, 3, 9, 512, 10000];
    for n in sizes {
        let payload: Vec<u8> = (0..n).map(|i| (i % 251) as u8).collect();
        let wire = serialize_frame(&payload);
        for chunk in [1usize, 3, 4, 512, n + 4] {
            let mut codec = FrameCodec::new();
            let frames = feed_chunked(&mut codec, &wire, chunk);
            assert_eq!(frames.len(), 1, "payload {} chunk {}", n, chunk);
            assert_eq!(frames[0], payload, "payload {} chunk {}", n, chunk);
        }
    }
}

#[test]
fn split_header_across_two_chunks() {
    let payload = b"split header";
    let wire = serialize_frame(payload);
    let mut codec = FrameCodec::new();
    assert!(codec.push_bytes(&wire[..2]).unwrap().is_empty());
    assert!(codec.push_bytes(&wire[2..4]).unwrap().is_empty());
    let frames = codec.push_bytes(&wire[4..]).unwrap();
    assert_eq!(frames, vec![payload.to_vec()]);
}

#[test]
fn multiple_frames_in_one_read() {
    let mut wire = serialize_frame(b"one");
    wire.extend(serialize_frame(b"two"));
    wire.extend(serialize_frame(b"three"));
    let mut codec = FrameCodec::new();
    let frames = codec.push_bytes(&wire).unwrap();
    assert_eq!(frames, vec![b"one".to_vec(), b"two".to_vec(), b"three".to_vec()]);
}

#[test]
fn leftover_bytes_belong_to_next_frame() {
    let mut wire = serialize_frame(b"first");
    let second = serialize_frame(b"second");
    wire.extend(&second[..3]);
    let mut codec = FrameCodec::new();
    let frames = codec.push_bytes(&wire).unwrap();
    assert_eq!(frames, vec![b"first".to_vec()]);
    let frames = codec.push_bytes(&second[3..]).unwrap();
    assert_eq!(frames, vec![b"second".to_vec()]);
}

#[test]
fn length_below_four_is_protocol_fault() {
    let mut codec = FrameCodec::new();
    let r = codec.push_bytes(&[0, 0, 0, 3, 9, 9]);
    assert_eq!(r, Err(Fault::Protocol));
}

#[test]
fn zero_length_prefix_is_protocol_fault() {
    let mut codec = FrameCodec::new();
    let r = codec.push_bytes(&[0, 0, 0, 0]);
    assert_eq!(r, Err(Fault::Protocol));
}
