use kvs::{KvStoreError, KvStoreErrorKind};

#[test]
fn error_carries_its_kind() {
    let e = KvStoreError::from(KvStoreErrorKind::DatabaseFileError);
    assert_eq!(e.kind(), KvStoreErrorKind::DatabaseFileError);
    let e: KvStoreError = KvStoreErrorKind::PoisonedLockError.into();
    assert_eq!(e.kind(), KvStoreErrorKind::PoisonedLockError);
}

#[test]
fn error_messages() {
    assert_eq!(KvStoreErrorKind::KeyDoesNotExist.message(), "Key not found");
    assert_eq!(KvStoreErrorKind::General.message(), "General error");
    assert_eq!(
        KvStoreError::from(KvStoreErrorKind::DeserializationError).message(),
        "Error deserializing from database file"
    );
    assert_eq!(KvStoreErrorKind::CorruptedDatabaseEntry.message(), "Database entry is corrupted");
}

#[test]
fn every_kind_has_its_message() {
    let cases = [
        (KvStoreErrorKind::General, "General error"),
        (KvStoreErrorKind::DatabaseFileError, "Error opening or writing to database"),
        (KvStoreErrorKind::SerializationError, "Error serializing the command"),
        (KvStoreErrorKind::DeserializationError, "Error deserializing from database file"),
        (KvStoreErrorKind::CorruptedDatabaseEntry, "Database entry is corrupted"),
        (
            KvStoreErrorKind::PoisonedLockError,
            "Error writing to the file. The file lock is poisoned",
        ),
        (KvStoreErrorKind::KeyDoesNotExist, "Key not found"),
    ];
    for (kind, text) in cases {
        assert_eq!(kind.message(), text);
        assert_eq!(KvStoreError::from(kind).message(), text);
    }
}
