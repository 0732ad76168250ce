use kvs::{Command, KvEngine, KvStoreErrorKind};

fn s(x: &str) -> String {
    x.to_string()
}

fn encode(cmd: &Command) -> Vec<u8> {
    let mut body = bson::Document::new();
    let tag = match cmd {
        Command::Put { key, value } => {
            body.insert("k", key.clone());
            body.insert("v", value.clone());
            "s"
        }
        Command::Remove { key } => {
            body.insert("k", key.clone());
            "r"
        }
    };
    let mut doc = bson::Document::new();
    doc.insert(tag, body);
    let mut buf: Vec<u8> = Vec::new();
    bson::encode_document(&mut buf, &doc).unwrap();
    buf
}

fn decode(frame: &[u8]) -> Option<Command> {
    let mut reader = frame;
    let doc = bson::decode_document(&mut reader).ok()?;
    if !reader.is_empty() {
        return None;
    }
    if let Ok(body) = doc.get_document("s") {
        let key = body.get_str("k").ok()?;
        let value = body.get_str("v").ok()?;
        return Some(Command::Put { key: s(key), value: s(value) });
    }
    let body = doc.get_document("r").ok()?;
    Some(Command::Remove { key: s(body.get_str("k").ok()?) })
}

fn commands() -> Vec<Command> {
    vec![
        Command::Put { key: s("a"), value: s("1") },
        Command::Put { key: s("b"), value: s("2") },
        Command::Remove { key: s("a") },
    ]
}

fn log_of(cmds: &[Command]) -> Vec<u8> {
    let mut log = Vec::new();
    for c in cmds {
        log.extend(encode(c));
    }
    log
}

#[test]
fn open_empty_log_is_empty_store() {
    let engine = KvEngine::open(&[], decode).unwrap();
    assert_eq!(engine.get(&s("a")), None);
}

#[test]
fn open_replays_the_log() {
    let engine = KvEngine::open(&log_of(&commands()), decode).unwrap();
    assert_eq!(engine.get(&s("a")), None);
    assert_eq!(engine.get(&s("b")), Some(s("2")));
}

#[test]
fn open_after_cut_at_boundary_replays_first_entries() {
    let cmds = commands();
    for n in 0..=cmds.len() {
        let engine = KvEngine::open(&log_of(&cmds[..n]), decode).unwrap();
        let expected = KvEngine::replay(&cmds[..n].to_vec());
        for k in ["a", "b"] {
            assert_eq!(engine.get(&s(k)), expected.get(&s(k)));
        }
    }
}

#[test]
fn open_after_cut_inside_entry_is_deserialization_error() {
    let cmds = commands();
    let full = log_of(&cmds);
    let first = encode(&cmds[0]).len();
    let second = first + encode(&cmds[1]).len();
    for cut in 1..full.len() {
        if cut == first || cut == second {
            continue;
        }
        let err = KvEngine::open(&full[..cut], decode).err().unwrap();
        assert_eq!(err.kind(), KvStoreErrorKind::DeserializationError);
    }
}

#[test]
fn open_with_refused_frame_is_deserialization_error() {
    let err = KvEngine::open(&log_of(&commands()), |_: &[u8]| None).err().unwrap();
    assert_eq!(err.kind(), KvStoreErrorKind::DeserializationError);
}

#[test]
fn second_remove_after_set_fails() {
    let mut engine = KvEngine::replay(&vec![]);
    engine.commit(&Command::Put { key: s("k"), value: s("v") });
    let cmd = engine.remove_command(s("k")).unwrap();
    engine.commit(&cmd);
    assert_eq!(engine.remove_command(s("k")).unwrap_err().kind(), KvStoreErrorKind::KeyDoesNotExist);
}
