//! The store's error taxonomy.
use vstd::prelude::*;

verus! {

/// What went wrong in a store operation.
#[derive(Copy, Clone, Eq, PartialEq, Debug, Structural)]
pub enum KvStoreErrorKind {
    /// A failure that fits no other kind.
    General,
    /// The log file could not be opened, read, written or flushed.
    DatabaseFileError,
    /// A command could not be encoded.
    SerializationError,
    /// Bytes of the log could not be decoded as a command.
    DeserializationError,
    /// The index pointed at an entry that is not the expected `Set`.
    CorruptedDatabaseEntry,
    /// The store's lock was left poisoned by an earlier panic.
    PoisonedLockError,
    /// `remove` was called for a key that is not in the store.
    KeyDoesNotExist,
}

/// The text shown to a user for each kind of error.
pub open spec fn message_of(k: KvStoreErrorKind) -> &'static str {
    match k {
        KvStoreErrorKind::General => "General error",
        KvStoreErrorKind::DatabaseFileError => "Error opening or writing to database",
        KvStoreErrorKind::SerializationError => "Error serializing the command",
        KvStoreErrorKind::DeserializationError => "Error deserializing from database file",
        KvStoreErrorKind::CorruptedDatabaseEntry => "Database entry is corrupted",
        KvStoreErrorKind::PoisonedLockError => "Error writing to the file. The file lock is poisoned",
        KvStoreErrorKind::KeyDoesNotExist => "Key not found",
    }
}

impl KvStoreErrorKind {
    /// The text shown to a user for this kind of error.
    pub fn message(&self) -> (r: &'static str)
        ensures
            r@ == message_of(*self)@,
    {
        match self {
            KvStoreErrorKind::General => "General error",
            KvStoreErrorKind::DatabaseFileError => "Error opening or writing to database",
            KvStoreErrorKind::SerializationError => "Error serializing the command",
            KvStoreErrorKind::DeserializationError => "Error deserializing from database file",
            KvStoreErrorKind::CorruptedDatabaseEntry => "Database entry is corrupted",
            KvStoreErrorKind::PoisonedLockError => "Error writing to the file. The file lock is poisoned",
            KvStoreErrorKind::KeyDoesNotExist => "Key not found",
        }
    }
}

/// An error returned by the store; it carries its kind.
#[derive(Copy, Clone, Debug)]
pub struct KvStoreError {
    kind: KvStoreErrorKind,
}

impl View for KvStoreError {
    type V = KvStoreErrorKind;

    closed spec fn view(&self) -> KvStoreErrorKind {
        self.kind
    }
}

impl KvStoreError {
    /// The kind of this error.
    pub fn kind(&self) -> (r: KvStoreErrorKind)
        ensures
            r == self@,
    {
        self.kind
    }

    /// The text shown to a user for this error.
    pub fn message(&self) -> (r: &'static str)
        ensures
            r@ == message_of(self@)@,
    {
        self.kind.message()
    }
}

impl From<KvStoreErrorKind> for KvStoreError {
    fn from(kind: KvStoreErrorKind) -> (r: KvStoreError)
        ensures
            r@ == kind,
    {
        KvStoreError { kind }
    }
}

impl vstd::std_specs::convert::FromSpecImpl<KvStoreErrorKind> for KvStoreError {
    open spec fn obeys_from_spec() -> bool {
        true
    }

    closed spec fn from_spec(kind: KvStoreErrorKind) -> KvStoreError {
        KvStoreError { kind }
    }
}

/// The result of a store operation.
pub type Result<T> = core::result::Result<T, KvStoreError>;

} // verus!
