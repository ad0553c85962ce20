use metacache::codec::{decode_frame, Frame, TAG_END};
use metacache::entry::Entry;
use metacache::stream::{encode_stream, FrameReader, FrameWriter, Peeked};

fn entry(name: &[u8], metadata: Option<&[u8]>) -> Entry {
    Entry { name: name.to_vec(), metadata: metadata.map(|m| m.to_vec()) }
}

#[test]
fn round_trip_entry_with_metadata() {
    let e = entry(b"bucket/object", Some(b"\x00\x0araw-bytes"));
    let mut w = FrameWriter::new();
    w.write_entry(&e);
    let bytes = w.finish();
    match decode_frame(&bytes, 0) {
        Some((Frame::Item(d), next)) => {
            assert_eq!(d.name, b"bucket/object".to_vec());
            assert_eq!(d.metadata, Some(b"\x00\x0araw-bytes".to_vec()));
            assert_eq!(bytes[next], TAG_END);
        },
        _ => panic!("expected one decoded entry"),
    }
}

#[test]
fn round_trip_entry_without_metadata() {
    let e = entry(b"prefix/", None);
    let mut w = FrameWriter::new();
    w.write_entry(&e);
    let bytes = w.finish();
    match decode_frame(&bytes, 0) {
        Some((Frame::Item(d), _)) => {
            assert_eq!(d.name, b"prefix/".to_vec());
            assert_eq!(d.metadata, None);
        },
        _ => panic!("expected one decoded entry"),
    }
}

#[test]
fn empty_name_is_distinguishable_from_end() {
    let e = entry(b"", None);
    let mut w = FrameWriter::new();
    w.write_entry(&e);
    let bytes = w.finish();
    match decode_frame(&bytes, 0) {
        Some((Frame::Item(d), _)) => assert_eq!(d.name, Vec::<u8>::new()),
        _ => panic!("an empty name must still decode as an entry"),
    }
}

#[test]
fn frame_layout_is_tag_length_name() {
    // Tag byte, 64-bit little-endian name length, name bytes, end sentinel.
    let bytes = encode_stream(&vec![entry(b"ab", None)]);
    assert_eq!(bytes, vec![1u8, 2, 0, 0, 0, 0, 0, 0, 0, b'a', b'b', 0]);

    let bytes = encode_stream(&vec![entry(b"a", Some(b"xy"))]);
    assert_eq!(
        bytes,
        vec![2u8, 1, 0, 0, 0, 0, 0, 0, 0, b'a', 2, 0, 0, 0, 0, 0, 0, 0, b'x', b'y', 0]
    );
}

#[test]
fn reader_walks_a_whole_stream() {
    let entries = vec![entry(b"a", Some(b"1")), entry(b"b", None), entry(b"c", Some(b"3"))];
    let bytes = encode_stream(&entries);
    let mut rd = FrameReader::new(bytes);
    let mut seen = Vec::new();
    loop {
        match rd.next() {
            Some(e) => seen.push(e.name),
            None => break,
        }
    }
    assert_eq!(seen, vec![b"a".to_vec(), b"b".to_vec(), b"c".to_vec()]);
    assert!(matches!(rd.peek(), Peeked::End));
}

#[test]
fn peek_is_idempotent() {
    let bytes = encode_stream(&vec![entry(b"a", Some(b"1"))]);
    let rd = FrameReader::new(bytes);
    for _ in 0..3 {
        match rd.peek() {
            Peeked::Item(e) => assert_eq!(e.name, b"a".to_vec()),
            _ => panic!("peek must keep returning the first entry"),
        }
    }
}

#[test]
fn skip_then_peek_equals_consume_then_peek() {
    let entries: Vec<Entry> =
        (0..6).map(|i| entry(format!("n{i}").as_bytes(), Some(&[i as u8]))).collect();
    for k in 0..=entries.len() {
        let bytes = encode_stream(&entries);
        let mut skipping = FrameReader::new(bytes.clone());
        assert_eq!(skipping.skip(k), k);

        let mut consuming = FrameReader::new(bytes);
        for _ in 0..k {
            consuming.next().unwrap();
        }
        match (skipping.peek(), consuming.peek()) {
            (Peeked::Item(a), Peeked::Item(b)) => {
                assert_eq!(a.name, b.name);
                assert_eq!(a.metadata, b.metadata);
            },
            (Peeked::End, Peeked::End) => assert_eq!(k, entries.len()),
            _ => panic!("skip({k}) and {k} consumes disagree"),
        }
    }
}

#[test]
fn skip_past_the_end_reports_how_many_were_left() {
    let bytes = encode_stream(&vec![entry(b"a", None), entry(b"b", None)]);
    let mut rd = FrameReader::new(bytes);
    assert_eq!(rd.skip(10), 2);
    assert!(matches!(rd.peek(), Peeked::End));
}

#[test]
fn malformed_bytes_are_reported_not_silently_truncated() {
    let bytes = vec![9u8, 1, 2, 3];
    let rd = FrameReader::new(bytes);
    assert!(matches!(rd.peek(), Peeked::Malformed));

    // A stream cut off before its announced length is malformed too.
    let mut w = FrameWriter::new();
    w.write_entry(&entry(b"abcdef", None));
    let mut bytes = w.finish();
    bytes.truncate(6);
    let rd = FrameReader::new(bytes);
    assert!(matches!(rd.peek(), Peeked::Malformed));
}
