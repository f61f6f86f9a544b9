use n1mm_bridge::message::{frame, parse_frame};
use n1mm_bridge::reader::{FrameReader, Received, MAX_BUFFERED};

fn drain(reader: &mut FrameReader) -> Vec<String> {
    let mut out = Vec::new();
    while let Some(f) = reader.next_frame() {
        out.push(f);
    }
    out
}

#[test]
fn several_messages_in_one_segment() {
    let a = frame("S", "ECHOREQ", vec!["d".to_string(), "t".to_string()]);
    let b = frame("S", "CONTESTNAME", vec![]);
    let c = frame("Sé", "STATUS", vec!["ü".to_string()]);
    let stream = format!("{}{}{}", a, b, c);
    let mut reader = FrameReader::new();
    assert!(reader.next_frame().is_none());
    assert_eq!(reader.receive(stream.as_bytes()), Received::Buffered);
    assert_eq!(drain(&mut reader), vec![a, b, c]);
    assert!(reader.next_frame().is_none());
}

#[test]
fn segments_may_fall_anywhere() {
    let a = frame("S", "ECHOREQ", vec!["dü€".to_string()]);
    let b = frame("~__~__DAT", "X", vec!["~".to_string(), "~__DAT".to_string()]);
    let stream = format!("{}{}{}", a, b, a).into_bytes();
    for size in 1..stream.len() + 1 {
        let mut reader = FrameReader::new();
        let mut out = Vec::new();
        for chunk in stream.chunks(size) {
            assert_eq!(reader.receive(chunk), Received::Buffered);
            out.extend(drain(&mut reader));
        }
        assert_eq!(out, vec![a.clone(), b.clone(), a.clone()]);
        assert_eq!(parse_frame(&out[1]).unwrap().sender, "~__~__DAT");
    }
}

#[test]
fn bytes_that_are_no_text_are_replaced() {
    let mut reader = FrameReader::new();
    assert_eq!(reader.receive(b"DATA__00%\xff\xc3%C%~__DATA"), Received::Buffered);
    assert_eq!(reader.next_frame().unwrap(), "DATA__00%\u{fffd}\u{fffd}%C%~__DATA");
}

#[test]
fn nothing_read_means_closed() {
    let mut reader = FrameReader::new();
    assert_eq!(reader.receive(b""), Received::Closed);
    assert_eq!(reader.receive(b"~__DATA"), Received::Buffered);
    assert_eq!(reader.receive(b""), Received::Closed);
    assert_eq!(reader.next_frame().unwrap(), "~__DATA");
}

#[test]
fn too_much_is_refused() {
    let mut reader = FrameReader::new();
    assert_eq!(MAX_BUFFERED, 65_536);
    for _ in 0..64 {
        assert_eq!(reader.receive(&[b'x'; 1024]), Received::Buffered);
    }
    assert_eq!(reader.receive(b"y"), Received::Overflow);
    let mut reader = FrameReader::new();
    assert_eq!(reader.receive(&[b'x'; 65_537]), Received::Overflow);
}

#[test]
fn long_frames_fit() {
    let long = frame("S", "C", vec!["x".repeat(64_000)]);
    let stream = long.repeat(3).into_bytes();
    let mut reader = FrameReader::new();
    let mut out = Vec::new();
    for chunk in stream.chunks(1024) {
        assert_eq!(reader.receive(chunk), Received::Buffered);
        out.extend(drain(&mut reader));
    }
    assert_eq!(out, vec![long.clone(), long.clone(), long]);
}
