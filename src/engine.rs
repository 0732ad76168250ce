//! The state of an open store: its index, and the commands of its log.
//!
//! The file itself is the caller's: a command is committed here once the
//! caller has appended it to the log and flushed it. Until then the state is
//! unchanged, so a failed append leaves no trace.
use crate::command::{Command, CommandView};
use crate::err::{KvStoreError, KvStoreErrorKind};
use crate::frame::{frame_bytes, frames_from, frames_of, lemma_frames_in_bounds, span_views, split_frames};
use crate::index::{apply_command, remove_outcome, replay_spec, views, KvIndex};
use vstd::prelude::*;

verus! {

/// Whether `decode` may hand back a command whose view is `c` for the
/// frame bytes `b`.
pub open spec fn decodes_to<F: Fn(&[u8]) -> Option<Command>>(
    decode: F,
    b: Seq<u8>,
    c: CommandView,
) -> bool {
    exists|s: &[u8], x: Command| s@ == b && x@ == c && #[trigger] decode.ensures((s,), Some(x))
}

/// Whether `decode` may refuse the frame bytes `b`.
pub open spec fn refuses<F: Fn(&[u8]) -> Option<Command>>(decode: F, b: Seq<u8>) -> bool {
    exists|s: &[u8]| s@ == b && #[trigger] decode.ensures((s,), None::<Command>)
}

/// The state of an open store. Its contents are at every point the replay of
/// the commands that its log holds.
pub struct KvEngine {
    index: KvIndex,
    log: Ghost<Seq<CommandView>>,
}

impl KvEngine {
    /// The key-value contents of the store.
    pub closed spec fn contents(&self) -> Map<Seq<char>, Seq<char>> {
        self.index@
    }

    /// The commands that the store's log holds, in log order.
    pub closed spec fn log(&self) -> Seq<CommandView> {
        self.log@
    }

    /// The index is well formed and is the replay of the log.
    pub closed spec fn wf(&self) -> bool {
        self.index.wf() && self.index@ == replay_spec(self.log@)
    }

    /// The state of a store whose log holds the commands `log`, in order.
    pub fn replay(log: &Vec<Command>) -> (r: KvEngine)
        ensures
            r.wf(),
            r.log() == views(log@),
            r.contents() == replay_spec(views(log@)),
    {
        KvEngine { index: KvIndex::replay(log), log: Ghost(views(log@)) }
    }

    /// Opens the store whose log file holds the bytes `log`: cuts it into
    /// frames, decodes each frame with `decode`, and replays the commands in
    /// order. A log that does not cut into whole frames, or a frame that
    /// `decode` refuses, gives `DeserializationError`.
    pub fn open<F: Fn(&[u8]) -> Option<Command>>(log: &[u8], decode: F) -> (r: Result<
        KvEngine,
        KvStoreError,
    >)
        requires
            forall|s: &[u8]| #[trigger] decode.requires((s,)),
        ensures
            match r {
                Ok(e) => {
                    &&& e.wf()
                    &&& frames_of(log@) is Some
                    &&& e.log().len() == frames_of(log@)->0.len()
                    &&& forall|i: int|
                        0 <= i < e.log().len() ==> decodes_to(
                            decode,
                            frame_bytes(log@, frames_of(log@)->0[i]),
                            #[trigger] e.log()[i],
                        )
                    &&& e.contents() == replay_spec(e.log())
                },
                Err(err) => {
                    &&& err@ == KvStoreErrorKind::DeserializationError
                    &&& frames_of(log@) is None || exists|i: int|
                        0 <= i < frames_of(log@)->0.len() && refuses(
                            decode,
                            frame_bytes(log@, #[trigger] frames_of(log@)->0[i]),
                        )
                },
            },
    {
        let spans = match split_frames(log) {
            Ok(spans) => spans,
            Err(e) => {
                return Err(e);
            },
        };
        proof {
            lemma_frames_in_bounds(log@, 0);
            let fs = frames_from(log@, 0)->0;
            assert(fs == span_views(spans@));
            assert forall|j: int| 0 <= j < spans@.len() implies (#[trigger] span_views(
                spans@,
            )[j]).0 + span_views(spans@)[j].1 <= log@.len() by {
                assert(fs[j] == span_views(spans@)[j]);
            }
        }
        let mut cmds: Vec<Command> = Vec::new();
        let mut i: usize = 0;
        while i < spans.len()
            invariant
                forall|s: &[u8]| #[trigger] decode.requires((s,)),
                frames_of(log@) == Some(span_views(spans@)),
                forall|j: int|
                    0 <= j < spans@.len() ==> (#[trigger] span_views(spans@)[j]).0 + span_views(
                        spans@,
                    )[j].1 <= log@.len(),
                i <= spans@.len(),
                cmds@.len() == i,
                forall|j: int|
                    0 <= j < i ==> decodes_to(
                        decode,
                        frame_bytes(log@, span_views(spans@)[j]),
                        #[trigger] cmds@[j]@,
                    ),
            decreases spans@.len() - i,
        {
            let sp = spans[i];
            assert(span_views(spans@)[i as int] == sp@);
            let total: usize = log.len();
            assert(sp.start + sp.len <= total);
            let frame = &log[sp.start..sp.start + sp.len];
            match decode(frame) {
                Some(c) => {
                    let ghost before = cmds@;
                    cmds.push(c);
                    proof {
                        assert(decodes_to(decode, frame_bytes(log@, sp@), c@));
                        assert forall|j: int| 0 <= j < i + 1 implies decodes_to(
                            decode,
                            frame_bytes(log@, span_views(spans@)[j]),
                            #[trigger] cmds@[j]@,
                        ) by {
                            if j < i {
                                assert(cmds@[j] == before[j]);
                            }
                        }
                    }
                },
                None => {
                    proof {
                        assert(refuses(decode, frame_bytes(log@, sp@)));
                        assert(frames_of(log@)->0[i as int] == sp@);
                    }
                    return Err(KvStoreError::from(KvStoreErrorKind::DeserializationError));
                },
            }
            i = i + 1;
        }
        let e = KvEngine::replay(&cmds);
        proof {
            assert forall|j: int| 0 <= j < e.log().len() implies e.log()[j] == cmds@[j]@ by {}
        }
        Ok(e)
    }

    /// The current value of `key`, or `None` where the key is absent.
    pub fn get(&self, key: &String) -> (r: Option<String>)
        requires
            self.wf(),
        ensures
            match r {
                Some(v) => self.contents().contains_key(key@) && v@ == self.contents()[key@],
                None => !self.contents().contains_key(key@),
            },
    {
        self.index.get(key)
    }

    /// Whether `key` is in the store.
    pub fn contains_key(&self, key: &String) -> (r: bool)
        requires
            self.wf(),
        ensures
            r == self.contents().contains_key(key@),
    {
        self.index.contains_key(key)
    }

    /// The command that a live `remove` of `key` appends: refused with
    /// `KeyDoesNotExist` where the key is absent.
    pub fn remove_command(&self, key: String) -> (r: Result<Command, KvStoreError>)
        requires
            self.wf(),
        ensures
            match r {
                Ok(c) => remove_outcome(self.contents(), key@) == Ok::<
                    CommandView,
                    KvStoreErrorKind,
                >(c@),
                Err(e) => remove_outcome(self.contents(), key@) == Err::<
                    CommandView,
                    KvStoreErrorKind,
                >(e@),
            },
    {
        self.index.remove_command(key)
    }

    /// Records that `cmd` now ends the log: the index folds it in.
    pub fn commit(&mut self, cmd: &Command)
        requires
            old(self).wf(),
        ensures
            final(self).wf(),
            final(self).log() == old(self).log().push(cmd@),
            final(self).contents() == apply_command(old(self).contents(), cmd@),
    {
        self.index.apply(cmd);
        proof {
            let ghost before = self.log@;
            self.log@ = self.log@.push(cmd@);
            assert(self.log@.drop_last() =~= before);
        }
    }

    /// The live contents of a store are the replay of its log: a store
    /// reopened on the same log holds the same contents.
    pub proof fn lemma_live_is_replay(&self)
        requires
            self.wf(),
        ensures
            self.contents() == replay_spec(self.log()),
    {
    }
}

} // verus!
