use kvs::frame::{check_frame, frame_len, split_frames};
use kvs::{KvStoreErrorKind, Span};

fn encode(tag: &str, key: &str, value: Option<&str>) -> Vec<u8> {
    let mut body = bson::Document::new();
    body.insert("k", key);
    if let Some(v) = value {
        body.insert("v", v);
    }
    let mut doc = bson::Document::new();
    doc.insert(tag, body);
    let mut buf: Vec<u8> = Vec::new();
    bson::encode_document(&mut buf, &doc).unwrap();
    buf
}

fn log_of(frames: &[Vec<u8>]) -> Vec<u8> {
    let mut log = Vec::new();
    for f in frames {
        log.extend_from_slice(f);
    }
    log
}

fn frames() -> Vec<Vec<u8>> {
    vec![encode("s", "a", Some("1")), encode("s", "b", Some("2")), encode("r", "a", None)]
}

#[test]
fn empty_log_has_no_frames() {
    assert_eq!(split_frames(&[]).unwrap(), Vec::<Span>::new());
}

#[test]
fn frames_are_cut_where_they_were_written() {
    let fs = frames();
    let log = log_of(&fs);
    let spans = split_frames(&log).unwrap();
    assert_eq!(spans.len(), 3);
    let mut start = 0;
    for (span, f) in spans.iter().zip(fs.iter()) {
        assert_eq!(*span, Span { start, len: f.len() });
        start += f.len();
    }
}

#[test]
fn truncation_at_boundary_keeps_first_frames() {
    let fs = frames();
    let full = split_frames(&log_of(&fs)).unwrap();
    for n in 0..=fs.len() {
        let cut = split_frames(&log_of(&fs[..n])).unwrap();
        assert_eq!(cut, full[..n].to_vec());
    }
}

#[test]
fn truncation_inside_frame_is_deserialization_error() {
    let fs = frames();
    let log = log_of(&fs);
    let boundaries: Vec<usize> = split_frames(&log).unwrap().iter().map(|s| s.start).collect();
    for cut in 1..log.len() {
        if boundaries.contains(&cut) {
            continue;
        }
        let err = split_frames(&log[..cut]).unwrap_err();
        assert_eq!(err.kind(), KvStoreErrorKind::DeserializationError);
    }
}

#[test]
fn frame_length_is_read_little_endian() {
    let bytes = vec![9u8, 0, 0, 0, 7, 7, 7, 7, 0, 42];
    assert_eq!(frame_len(&bytes, 0), Some(9));
    assert_eq!(frame_len(&bytes, 1), None);
    let short = vec![4u8, 0, 0, 0];
    assert_eq!(frame_len(&short, 0), None);
    let not_closed = vec![5u8, 0, 0, 0, 1];
    assert_eq!(frame_len(&not_closed, 0), None);
    let big = vec![5u8, 1, 0, 0, 0];
    assert_eq!(frame_len(&big, 0), None);
}

#[test]
fn check_frame_accepts_one_whole_frame() {
    assert!(check_frame(&encode("s", "k", Some("v"))).is_ok());
    let mut two = encode("s", "k", Some("v"));
    two.extend(encode("r", "k", None));
    assert_eq!(check_frame(&two).unwrap_err().kind(), KvStoreErrorKind::SerializationError);
    assert_eq!(check_frame(&[1, 2]).unwrap_err().kind(), KvStoreErrorKind::SerializationError);
}
