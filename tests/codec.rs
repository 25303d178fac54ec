use state_diff::{
    chunk_to_bytes, chunk_to_component, deserialize, diff, encode_component, kind_to_bytes,
    kind_to_tag, serialize, tag_to_kind, to_chunks, Chunk, Component, ComponentKind, DecodeError,
    DiffError, StreamError,
};

fn health(value: i64) -> Component {
    Component { kind: ComponentKind::Health, value }
}

fn stamina(value: i64) -> Component {
    Component { kind: ComponentKind::Stamina, value }
}

#[test]
fn reconcile_health_correction() {
    let trusted = serialize(&[health(30), stamina(90)]);
    let candidate = serialize(&[health(88), stamina(90)]);
    let correction = diff(trusted, candidate).unwrap();
    let mut expected = vec![0x01u8, 8, 0, 0, 0];
    expected.extend_from_slice(&30i64.to_le_bytes());
    assert_eq!(correction, expected);
    let components = deserialize(to_chunks(&correction).unwrap());
    assert_eq!(components, vec![health(30)]);
}

#[test]
fn kind_tags_are_stable() {
    assert_eq!(kind_to_tag(ComponentKind::Health), 0x01);
    assert_eq!(kind_to_tag(ComponentKind::Stamina), 0x02);
    assert_eq!(kind_to_bytes(&ComponentKind::Health), vec![0x01]);
    assert_eq!(kind_to_bytes(&ComponentKind::Stamina), vec![0x02]);
}

#[test]
fn tags_decode_to_kinds() {
    assert_eq!(tag_to_kind(0x01), Some(ComponentKind::Health));
    assert_eq!(tag_to_kind(0x02), Some(ComponentKind::Stamina));
    assert_eq!(tag_to_kind(0x00), None);
    assert_eq!(tag_to_kind(0x03), None);
    assert_eq!(tag_to_kind(0xff), None);
}

#[test]
fn component_bytes_are_exact() {
    assert_eq!(
        encode_component(&stamina(-2)),
        vec![0x02, 8, 0, 0, 0, 0xfe, 0xff, 0xff, 0xff, 0xff, 0xff, 0xff, 0xff]
    );
    assert_eq!(
        encode_component(&health(0x0102030405060708)),
        vec![0x01, 8, 0, 0, 0, 8, 7, 6, 5, 4, 3, 2, 1]
    );
}

#[test]
fn chunk_bytes_are_exact() {
    let chunk = Chunk { kind: 0x07, length: 3, data: vec![9, 8, 7] };
    assert_eq!(chunk_to_bytes(&chunk), vec![0x07, 3, 0, 0, 0, 9, 8, 7]);
    let empty = Chunk { kind: 0x01, length: 0, data: vec![] };
    assert_eq!(chunk_to_bytes(&empty), vec![0x01, 0, 0, 0, 0]);
}

#[test]
fn serialize_keeps_order_and_duplicates() {
    let bytes = serialize(&[stamina(1), health(2), stamina(1)]);
    assert_eq!(bytes.len(), 39);
    assert_eq!(bytes[0], 0x02);
    assert_eq!(bytes[13], 0x01);
    assert_eq!(bytes[26], 0x02);
    assert_eq!(bytes[18], 2);
}

#[test]
fn serialize_empty_is_empty() {
    assert_eq!(serialize(&[]), Vec::<u8>::new());
    assert_eq!(to_chunks(&vec![]).unwrap().len(), 0);
}

#[test]
fn round_trip_recovers_components() {
    let components = vec![health(i64::MIN), stamina(i64::MAX), health(0), stamina(-1), health(30)];
    let bytes = serialize(&components);
    let chunks = to_chunks(&bytes).unwrap();
    assert_eq!(chunks.len(), 5);
    for c in &chunks {
        assert_eq!(c.length, 8);
        assert_eq!(c.data.len(), 8);
    }
    assert_eq!(deserialize(chunks), components);
}

#[test]
fn parse_of_concatenation_is_concatenation() {
    let a = serialize(&[health(5), stamina(6)]);
    let mut b = chunk_to_bytes(&Chunk { kind: 0x09, length: 2, data: vec![1, 2] });
    b.extend(serialize(&[stamina(7)]));
    let mut ab = a.clone();
    ab.extend(b.clone());
    let chunks_a = to_chunks(&a).unwrap();
    let chunks_b = to_chunks(&b).unwrap();
    let chunks_ab = to_chunks(&ab).unwrap();
    assert_eq!(chunks_ab.len(), chunks_a.len() + chunks_b.len());
    for (x, y) in chunks_ab.iter().zip(chunks_a.iter().chain(chunks_b.iter())) {
        assert_eq!(x.kind, y.kind);
        assert_eq!(x.length, y.length);
        assert_eq!(x.data, y.data);
    }
}

#[test]
fn diff_of_identical_streams_is_empty() {
    let components = [health(1), stamina(2), health(3)];
    let a = serialize(&components);
    assert_eq!(diff(a.clone(), a).unwrap(), Vec::<u8>::new());
    assert_eq!(diff(vec![], vec![]).unwrap(), Vec::<u8>::new());
}

#[test]
fn diff_emits_only_changed_positions() {
    let trusted = [health(1), stamina(2), health(3), stamina(4)];
    let candidate = [health(1), stamina(20), health(3), stamina(40)];
    let correction = diff(serialize(&trusted), serialize(&candidate)).unwrap();
    let chunks = to_chunks(&correction).unwrap();
    assert_eq!(chunks.len(), 2);
    let mut expected = encode_component(&trusted[1]);
    expected.extend(encode_component(&trusted[3]));
    assert_eq!(correction, expected);
    assert_eq!(deserialize(chunks), vec![stamina(2), stamina(4)]);
}

#[test]
fn diff_is_positional_not_by_kind() {
    let trusted = serialize(&[health(1), stamina(2)]);
    let candidate = serialize(&[stamina(1), health(2)]);
    assert_eq!(diff(trusted, candidate).unwrap(), Vec::<u8>::new());
}

#[test]
fn diff_reports_malformed_trusted() {
    let mut trusted = serialize(&[health(1)]);
    trusted.pop();
    let candidate = serialize(&[health(1)]);
    assert_eq!(diff(trusted, candidate), Err(DiffError::MalformedTrusted));
}

#[test]
fn diff_reports_malformed_candidate() {
    let trusted = serialize(&[health(1)]);
    let candidate = vec![0x01, 8, 0];
    assert_eq!(diff(trusted, candidate), Err(DiffError::MalformedCandidate));
}

#[test]
fn diff_reports_length_mismatch() {
    let trusted = serialize(&[health(1), stamina(2)]);
    let candidate = serialize(&[health(1)]);
    assert_eq!(
        diff(trusted, candidate),
        Err(DiffError::LengthMismatch { trusted: 2, candidate: 1 })
    );
}

#[test]
fn truncated_header_is_an_error() {
    assert!(matches!(to_chunks(&vec![0x01, 8, 0, 0]), Err(StreamError::Truncated)));
    assert!(matches!(to_chunks(&vec![0x01]), Err(StreamError::Truncated)));
}

#[test]
fn truncated_payload_is_an_error() {
    let mut bytes = serialize(&[health(1), stamina(2)]);
    bytes.truncate(bytes.len() - 1);
    assert!(matches!(to_chunks(&bytes), Err(StreamError::Truncated)));
    assert!(matches!(to_chunks(&vec![0x01, 0xff, 0xff, 0xff, 0xff, 1]), Err(StreamError::Truncated)));
}

#[test]
fn unknown_tag_is_skipped() {
    let mut bytes = serialize(&[health(10)]);
    bytes.extend(chunk_to_bytes(&Chunk { kind: 0x42, length: 3, data: vec![1, 2, 3] }));
    bytes.extend(serialize(&[stamina(20), health(30)]));
    let chunks = to_chunks(&bytes).unwrap();
    assert_eq!(chunks.len(), 4);
    assert_eq!(deserialize(chunks), vec![health(10), stamina(20), health(30)]);
}

#[test]
fn chunk_with_unknown_tag_reports_it() {
    let chunk = Chunk { kind: 0x00, length: 8, data: vec![0; 8] };
    assert_eq!(chunk_to_component(&chunk), Err(DecodeError::UnknownKind { tag: 0x00 }));
}

#[test]
fn chunk_with_wrong_width_reports_it() {
    let chunk = Chunk { kind: 0x02, length: 4, data: vec![1, 0, 0, 0] };
    assert_eq!(
        chunk_to_component(&chunk),
        Err(DecodeError::BadPayloadLength { kind: ComponentKind::Stamina, length: 4 })
    );
    let skipped = deserialize(vec![chunk, Chunk { kind: 0x01, length: 8, data: vec![7, 0, 0, 0, 0, 0, 0, 0] }]);
    assert_eq!(skipped, vec![health(7)]);
}

#[test]
fn chunk_decodes_little_endian_value() {
    let chunk = Chunk { kind: 0x01, length: 8, data: vec![0xff; 8] };
    assert_eq!(chunk_to_component(&chunk), Ok(health(-1)));
    let chunk = Chunk { kind: 0x02, length: 8, data: vec![0, 1, 0, 0, 0, 0, 0, 0] };
    assert_eq!(chunk_to_component(&chunk), Ok(stamina(256)));
}
