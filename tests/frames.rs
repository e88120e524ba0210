use bytes::BytesMut;
use markdown_composer::{decode_frame, encode_rpc, Decoded, MalformedFrame, MessagePackDecoder, Rpc};

fn call(method: &str, params: &[&str]) -> Rpc {
    Rpc {
        method: method.to_string(),
        params: params.iter().map(|p| p.to_string()).collect(),
    }
}

fn packed(method: &str, params: &[&str]) -> Vec<u8> {
    rmp_serde::to_vec(&(2u32, method, params.to_vec())).unwrap()
}

fn decode_all(bytes: &[u8]) -> (Vec<Rpc>, BytesMut, bool) {
    let mut buf = BytesMut::from(bytes);
    let mut decoder = MessagePackDecoder;
    let mut calls = Vec::new();
    loop {
        match decoder.decode(&mut buf) {
            Ok(Some(rpc)) => calls.push(rpc),
            Ok(None) => return (calls, buf, false),
            Err(MalformedFrame) => return (calls, buf, true),
        }
    }
}

#[test]
fn decodes_a_frame_written_by_rmp_serde() {
    let bytes = packed("send_data", &["Hello, world!"]);
    let mut buf = BytesMut::from(&bytes[..]);
    let got = MessagePackDecoder.decode(&mut buf).unwrap();
    assert_eq!(got, Some(call("send_data", &["Hello, world!"])));
    assert!(buf.is_empty());
}

#[test]
fn frame_bytes_are_exact() {
    let bytes = encode_rpc(&call("chdir", &["/a"])).unwrap();
    assert_eq!(
        bytes,
        vec![0x93, 0x02, 0xa5, b'c', b'h', b'd', b'i', b'r', 0x91, 0xa2, b'/', b'a']
    );
}

#[test]
fn encoding_matches_rmp_serde() {
    let long = "x".repeat(40);
    let longer = "y".repeat(300);
    let huge = "z".repeat(70_000);
    let many: Vec<String> = (0..20).map(|i| format!("p{}", i)).collect();
    let many_refs: Vec<&str> = many.iter().map(|s| s.as_str()).collect();
    let cases: Vec<(&str, Vec<&str>)> = vec![
        ("send_data", vec!["Hello, world!"]),
        ("open_browser", vec![]),
        ("chdir", vec!["/tmp/docs"]),
        ("send_data", vec![long.as_str()]),
        ("send_data", vec![longer.as_str()]),
        ("send_data", vec![huge.as_str()]),
        ("send_data", vec!["héllo wörld ✓ 🦀"]),
        ("chdir", many_refs.clone()),
    ];
    for (method, params) in cases {
        let ours = encode_rpc(&call(method, &params)).unwrap();
        assert_eq!(ours, packed(method, &params));
    }
}

#[test]
fn round_trip() {
    let cases = vec![
        call("send_data", &["# Title\n\nbody"]),
        call("open_browser", &[]),
        call("m", &["", "two", "ünïcödé"]),
        call("send_data", &[&"q".repeat(1000)]),
    ];
    for c in cases {
        let bytes = encode_rpc(&c).unwrap();
        match decode_frame(&bytes) {
            Decoded::Produced(back, n) => {
                assert_eq!(back, c);
                assert_eq!(n, bytes.len());
            }
            _ => panic!("frame not read back"),
        }
    }
}

#[test]
fn encode_refuses_an_empty_method() {
    assert_eq!(encode_rpc(&call("", &["x"])), None);
}

#[test]
fn incomplete_leaves_buffer_unchanged() {
    let bytes = packed("send_data", &["Hello, world!"]);
    for cut in 0..bytes.len() {
        let mut buf = BytesMut::from(&bytes[..cut]);
        let before = buf.clone();
        assert_eq!(MessagePackDecoder.decode(&mut buf), Ok(None));
        assert_eq!(buf, before);
    }
}

#[test]
fn split_frame_completes_after_second_chunk() {
    let bytes = packed("send_data", &["Hello, world!"]);
    for cut in 1..bytes.len() {
        let mut buf = BytesMut::from(&bytes[..cut]);
        let mut decoder = MessagePackDecoder;
        assert_eq!(decoder.decode(&mut buf), Ok(None));
        assert_eq!(&buf[..], &bytes[..cut]);
        buf.extend_from_slice(&bytes[cut..]);
        assert_eq!(
            decoder.decode(&mut buf),
            Ok(Some(call("send_data", &["Hello, world!"])))
        );
        assert!(buf.is_empty());
    }
}

#[test]
fn batched_frames_decode_one_after_the_other() {
    let mut bytes = packed("chdir", &["/tmp/docs"]);
    bytes.extend(packed("send_data", &["# Title"]));
    bytes.extend([0x93, 0x02]);
    let mut buf = BytesMut::from(&bytes[..]);
    let mut decoder = MessagePackDecoder;
    assert_eq!(decoder.decode(&mut buf), Ok(Some(call("chdir", &["/tmp/docs"]))));
    assert_eq!(decoder.decode(&mut buf), Ok(Some(call("send_data", &["# Title"]))));
    assert_eq!(decoder.decode(&mut buf), Ok(None));
    assert_eq!(&buf[..], &[0x93, 0x02]);
}

#[test]
fn chunking_does_not_change_the_result() {
    let mut stream = packed("chdir", &["/tmp/docs"]);
    stream.extend(packed("send_data", &["# Title"]));
    stream.extend(packed("open_browser", &[]));
    let whole = decode_all(&stream);
    for size in 1..stream.len() {
        let mut buf = BytesMut::new();
        let mut decoder = MessagePackDecoder;
        let mut calls = Vec::new();
        for chunk in stream.chunks(size) {
            buf.extend_from_slice(chunk);
            while let Some(rpc) = decoder.decode(&mut buf).unwrap() {
                calls.push(rpc);
            }
        }
        assert_eq!(calls, whole.0);
        assert_eq!(buf, whole.1);
    }
    assert_eq!(whole.0.len(), 3);
    assert!(whole.1.is_empty());
    assert!(!whole.2);
}

#[test]
fn wrong_tag_is_malformed() {
    let bytes = rmp_serde::to_vec(&(0u32, "send_data", vec!["x"])).unwrap();
    let mut buf = BytesMut::from(&bytes[..]);
    assert_eq!(MessagePackDecoder.decode(&mut buf), Err(MalformedFrame));
    assert_eq!(&buf[..], &bytes[..]);
}

#[test]
fn tag_in_wider_encodings_is_accepted() {
    let tails: Vec<Vec<u8>> = vec![
        vec![0xcc, 0x02],
        vec![0xcd, 0x00, 0x02],
        vec![0xce, 0, 0, 0, 2],
        vec![0xcf, 0, 0, 0, 0, 0, 0, 0, 2],
        vec![0xd0, 0x02],
        vec![0xd1, 0x00, 0x02],
    ];
    for tag in tails {
        let mut bytes = vec![0x93];
        bytes.extend(tag);
        bytes.extend([0xa1, b'm', 0x90]);
        match decode_frame(&bytes) {
            Decoded::Produced(rpc, n) => {
                assert_eq!(rpc, call("m", &[]));
                assert_eq!(n, bytes.len());
            }
            _ => panic!("tag not accepted"),
        }
    }
}

#[test]
fn negative_tag_is_malformed() {
    let bytes = [0x93, 0xd0, 0xfe, 0xa1, b'm', 0x90];
    assert!(matches!(decode_frame(&bytes), Decoded::Malformed));
    let bytes = [0x93, 0xff, 0xa1, b'm', 0x90];
    assert!(matches!(decode_frame(&bytes), Decoded::Malformed));
}

#[test]
fn wrong_arity_of_frame_is_malformed() {
    let bytes = rmp_serde::to_vec(&(2u32, "send_data")).unwrap();
    assert!(matches!(decode_frame(&bytes), Decoded::Malformed));
    let bytes = rmp_serde::to_vec(&(2u32, "send_data", vec!["x"], 7u8)).unwrap();
    assert!(matches!(decode_frame(&bytes), Decoded::Malformed));
}

#[test]
fn non_array_is_malformed() {
    assert!(matches!(decode_frame(&[0xa1, b'x']), Decoded::Malformed));
    assert!(matches!(decode_frame(&[0xc0]), Decoded::Malformed));
}

#[test]
fn non_string_parameter_is_malformed() {
    let bytes = rmp_serde::to_vec(&(2u32, "send_data", vec![1u8])).unwrap();
    assert!(matches!(decode_frame(&bytes), Decoded::Malformed));
}

#[test]
fn invalid_utf8_is_malformed() {
    let bytes = [0x93, 0x02, 0xa2, 0xff, 0xfe, 0x90];
    assert!(matches!(decode_frame(&bytes), Decoded::Malformed));
}

#[test]
fn empty_method_is_malformed() {
    let bytes = [0x93, 0x02, 0xa0, 0x90];
    assert!(matches!(decode_frame(&bytes), Decoded::Malformed));
}

#[test]
fn empty_buffer_is_incomplete() {
    assert!(matches!(decode_frame(&[]), Decoded::Incomplete));
}

#[test]
fn long_string_header_waits_for_its_bytes() {
    let bytes = [0x93, 0x02, 0xdb, 0xff, 0xff, 0xff, 0xff, b'a'];
    assert!(matches!(decode_frame(&bytes), Decoded::Incomplete));
}
