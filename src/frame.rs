//! Framing of the log file.
//!
//! The log is a concatenation of documents, each self-delimiting: its first
//! four bytes hold its whole length as a little-endian 32-bit integer, at
//! least five and at most `MAX_FRAME_LEN`, and its last byte is zero. Replay
//! cuts the log into such frames from the start to the end; a log that does
//! not cut cleanly, as after a write that stopped in the middle of a
//! document, is refused.
use crate::err::{KvStoreError, KvStoreErrorKind};
use vstd::prelude::*;

verus! {

/// The largest length that a document's prefix may declare.
pub const MAX_FRAME_LEN: u64 = 2147483647;

/// The least length of a document: the prefix and the closing zero.
pub const MIN_FRAME_LEN: u64 = 5;

/// The little-endian 32-bit integer held by `b[pos..pos + 4]`.
pub open spec fn le_u32(b: Seq<u8>, pos: int) -> int {
    b[pos] + 256 * b[pos + 1] + 65536 * b[pos + 2] + 16777216 * b[pos + 3]
}

/// Whether a whole frame starts at `pos` of `log`.
pub open spec fn frame_fits(log: Seq<u8>, pos: nat) -> bool {
    &&& pos + 4 <= log.len()
    &&& MIN_FRAME_LEN <= le_u32(log, pos as int) <= MAX_FRAME_LEN
    &&& le_u32(log, pos as int) <= log.len() - pos
    &&& log[pos + le_u32(log, pos as int) - 1] == 0
}

/// Whether `b` is exactly one frame.
pub open spec fn is_frame(b: Seq<u8>) -> bool {
    frame_fits(b, 0) && le_u32(b, 0) == b.len()
}

/// The frames of `log` from `pos` to its end, as (start, length) pairs, or
/// `None` where the bytes from `pos` do not cut into whole frames.
pub open spec fn frames_from(log: Seq<u8>, pos: nat) -> Option<Seq<(nat, nat)>>
    decreases log.len() - pos,
{
    if pos >= log.len() {
        Some(Seq::empty())
    } else if frame_fits(log, pos) {
        let n = le_u32(log, pos as int) as nat;
        match frames_from(log, pos + n) {
            Some(rest) => Some(seq![(pos, n)] + rest),
            None => None,
        }
    } else {
        None
    }
}

/// The frames of a whole log.
pub open spec fn frames_of(log: Seq<u8>) -> Option<Seq<(nat, nat)>> {
    frames_from(log, 0)
}

/// The bytes of `frames` one after the other.
pub open spec fn concat(frames: Seq<Seq<u8>>) -> Seq<u8>
    decreases frames.len(),
{
    if frames.len() == 0 {
        Seq::empty()
    } else {
        frames[0] + concat(frames.drop_first())
    }
}

/// The (start, length) pairs of `frames` laid one after the other from
/// `base`.
pub open spec fn spans_of(frames: Seq<Seq<u8>>, base: nat) -> Seq<(nat, nat)>
    decreases frames.len(),
{
    if frames.len() == 0 {
        Seq::empty()
    } else {
        seq![(base, frames[0].len())] + spans_of(frames.drop_first(), base + frames[0].len())
    }
}

/// `a` followed by the frames in `o`, where `o` has them.
pub open spec fn prepend(a: Seq<(nat, nat)>, o: Option<Seq<(nat, nat)>>) -> Option<
    Seq<(nat, nat)>,
> {
    match o {
        Some(rest) => Some(a + rest),
        None => None,
    }
}

/// Where one frame of the log starts, and how long it is.
#[derive(Clone, Copy, Debug, PartialEq, Eq, Structural)]
pub struct Span {
    pub start: usize,
    pub len: usize,
}

impl View for Span {
    type V = (nat, nat);

    open spec fn view(&self) -> (nat, nat) {
        (self.start as nat, self.len as nat)
    }
}

/// The views of a sequence of spans.
pub open spec fn span_views(s: Seq<Span>) -> Seq<(nat, nat)> {
    s.map_values(|x: Span| x@)
}

/// The length of the frame that starts at `pos` of `log`, where a whole
/// frame starts there.
pub fn frame_len(log: &[u8], pos: usize) -> (r: Option<usize>)
    ensures
        match r {
            Some(n) => frame_fits(log@, pos as nat) && n == le_u32(log@, pos as int),
            None => !frame_fits(log@, pos as nat),
        },
{
    if log.len() < 4 || pos > log.len() - 4 {
        return None;
    }
    let n: u64 = log[pos] as u64 + (log[pos + 1] as u64) * 256 + (log[pos + 2] as u64) * 65536
        + (log[pos + 3] as u64) * 16777216;
    let room: usize = log.len() - pos;
    if n < MIN_FRAME_LEN || n > MAX_FRAME_LEN || n > room as u64 {
        return None;
    }
    let len = n as usize;
    if log[pos + len - 1] != 0 {
        return None;
    }
    Some(len)
}

/// Checks that `bytes` is exactly one frame, as each entry appended to the
/// log must be; `SerializationError` where it is not.
pub fn check_frame(bytes: &[u8]) -> (r: Result<(), KvStoreError>)
    ensures
        match r {
            Ok(_) => is_frame(bytes@),
            Err(e) => !is_frame(bytes@) && e@ == KvStoreErrorKind::SerializationError,
        },
{
    match frame_len(bytes, 0) {
        Some(n) => {
            if n == bytes.len() {
                Ok(())
            } else {
                Err(KvStoreError::from(KvStoreErrorKind::SerializationError))
            }
        },
        None => Err(KvStoreError::from(KvStoreErrorKind::SerializationError)),
    }
}

/// Cuts the whole log into frames, in order; `DeserializationError` where
/// it does not cut into whole frames.
pub fn split_frames(log: &[u8]) -> (r: Result<Vec<Span>, KvStoreError>)
    ensures
        match r {
            Ok(spans) => frames_of(log@) == Some(span_views(spans@)),
            Err(e) => frames_of(log@) is None && e@ == KvStoreErrorKind::DeserializationError,
        },
{
    let mut spans: Vec<Span> = Vec::new();
    let mut pos: usize = 0;
    while pos < log.len()
        invariant
            pos <= log@.len(),
            frames_of(log@) == prepend(span_views(spans@), frames_from(log@, pos as nat)),
        decreases log@.len() - pos,
    {
        match frame_len(log, pos) {
            Some(n) => {
                let ghost before = span_views(spans@);
                spans.push(Span { start: pos, len: n });
                proof {
                    assert(span_views(spans@) =~= before + seq![(pos as nat, n as nat)]);
                    let rest = frames_from(log@, (pos + n) as nat);
                    if rest is Some {
                        assert(before + (seq![(pos as nat, n as nat)] + rest->0) =~= span_views(
                            spans@,
                        ) + rest->0);
                    }
                }
                pos = pos + n;
            },
            None => {
                return Err(KvStoreError::from(KvStoreErrorKind::DeserializationError));
            },
        }
    }
    proof {
        assert(span_views(spans@) + Seq::<(nat, nat)>::empty() =~= span_views(spans@));
    }
    Ok(spans)
}

/// The bytes of the frame at `span` of `log`.
pub open spec fn frame_bytes(log: Seq<u8>, span: (nat, nat)) -> Seq<u8> {
    log.subrange(span.0 as int, (span.0 + span.1) as int)
}

/// Every frame found from `pos` lies inside the log.
pub proof fn lemma_frames_in_bounds(log: Seq<u8>, pos: nat)
    requires
        frames_from(log, pos) is Some,
    ensures
        forall|i: int|
            0 <= i < frames_from(log, pos)->0.len() ==> pos <= (#[trigger] frames_from(
                log,
                pos,
            )->0[i]).0 && frames_from(log, pos)->0[i].0 + frames_from(log, pos)->0[i].1
                <= log.len(),
    decreases log.len() - pos,
{
    if pos < log.len() {
        let n = le_u32(log, pos as int) as nat;
        lemma_frames_in_bounds(log, pos + n);
        let rest = frames_from(log, pos + n)->0;
        assert forall|i: int| 0 < i < frames_from(log, pos)->0.len() implies frames_from(
            log,
            pos,
        )->0[i] == rest[i - 1] by {}
    }
}

/// `a + concat(frames)` reads, from `a.len()` on, the bytes of each frame.
proof fn lemma_concat_step(a: Seq<u8>, frames: Seq<Seq<u8>>)
    requires
        frames.len() > 0,
    ensures
        a + concat(frames) == (a + frames[0]) + concat(frames.drop_first()),
{
    assert(a + concat(frames) =~= (a + frames[0]) + concat(frames.drop_first()));
}

/// A frame placed at `a.len()` of a log is found there, whatever follows it.
proof fn lemma_frame_at(a: Seq<u8>, f: Seq<u8>, b: Seq<u8>)
    requires
        is_frame(f),
    ensures
        frame_fits(a + f + b, a.len()),
        le_u32(a + f + b, a.len() as int) == f.len(),
{
    let log = a + f + b;
    let p = a.len() as int;
    assert(log[p] == f[0] && log[p + 1] == f[1] && log[p + 2] == f[2] && log[p + 3] == f[3]);
    assert(log[p + f.len() - 1] == f[f.len() - 1]);
}

/// Frames laid after any bytes `a` are cut, from `a.len()`, exactly where
/// they were laid.
proof fn lemma_frames_after(a: Seq<u8>, frames: Seq<Seq<u8>>)
    requires
        forall|i: int| 0 <= i < frames.len() ==> is_frame(#[trigger] frames[i]),
    ensures
        frames_from(a + concat(frames), a.len()) == Some(spans_of(frames, a.len())),
    decreases frames.len(),
{
    if frames.len() == 0 {
        assert(a + concat(frames) =~= a);
    } else {
        let f = frames[0];
        let rest = frames.drop_first();
        lemma_concat_step(a, frames);
        lemma_frame_at(a, f, concat(rest));
        assert(forall|i: int| 0 <= i < rest.len() ==> rest[i] == frames[i + 1]);
        lemma_frames_after(a + f, rest);
    }
}

/// Frames followed by a part of one frame do not cut into whole frames.
proof fn lemma_partial_after(a: Seq<u8>, frames: Seq<Seq<u8>>, g: Seq<u8>, p: int)
    requires
        forall|i: int| 0 <= i < frames.len() ==> is_frame(#[trigger] frames[i]),
        is_frame(g),
        0 < p < g.len(),
    ensures
        frames_from(a + concat(frames) + g.take(p), a.len()) is None,
    decreases frames.len(),
{
    if frames.len() == 0 {
        assert(a + concat(frames) + g.take(p) =~= a + g.take(p));
        let log = a + g.take(p);
        let q = a.len() as int;
        if p >= 4 {
            assert(log[q] == g[0] && log[q + 1] == g[1] && log[q + 2] == g[2] && log[q + 3]
                == g[3]);
        }
    } else {
        let f = frames[0];
        let rest = frames.drop_first();
        lemma_concat_step(a, frames);
        assert(a + concat(frames) + g.take(p) =~= a + f + (concat(rest) + g.take(p)));
        lemma_frame_at(a, f, concat(rest) + g.take(p));
        assert(a + f + (concat(rest) + g.take(p)) =~= (a + f) + concat(rest) + g.take(p));
        assert(forall|i: int| 0 <= i < rest.len() ==> rest[i] == frames[i + 1]);
        lemma_partial_after(a + f, rest, g, p);
    }
}

/// There is one span for each frame.
proof fn lemma_spans_len(frames: Seq<Seq<u8>>, base: nat)
    ensures
        spans_of(frames, base).len() == frames.len(),
    decreases frames.len(),
{
    if frames.len() > 0 {
        lemma_spans_len(frames.drop_first(), base + frames[0].len());
    }
}

/// The spans of the first `n` frames are the first `n` spans.
proof fn lemma_spans_take(frames: Seq<Seq<u8>>, base: nat, n: int)
    requires
        0 <= n <= frames.len(),
    ensures
        spans_of(frames.take(n), base) == spans_of(frames, base).take(n),
    decreases frames.len(),
{
    if n == 0 {
        assert(spans_of(frames, base).take(0) =~= Seq::<(nat, nat)>::empty());
    } else {
        let rest = frames.drop_first();
        assert(frames.take(n).drop_first() =~= rest.take(n - 1));
        let head = seq![(base, frames[0].len())];
        let tail = spans_of(rest, base + frames[0].len());
        lemma_spans_take(rest, base + frames[0].len(), n - 1);
        lemma_spans_len(rest, base + frames[0].len());
        assert(frames.take(n)[0] == frames[0]);
        assert(spans_of(frames.take(n), base) == head + spans_of(
            frames.take(n).drop_first(),
            base + frames[0].len(),
        ));
        assert(spans_of(frames, base) == head + tail);
        assert((head + tail).take(n) =~= head + tail.take(n - 1));
    }
}

/// A log written as a sequence of whole frames, and cut back to end right
/// after its first `n` frames, cuts into exactly the first `n` frames of the
/// whole log: reopening it replays those entries and no others.
pub proof fn lemma_truncate_at_frame_boundary(frames: Seq<Seq<u8>>, n: int)
    requires
        forall|i: int| 0 <= i < frames.len() ==> is_frame(#[trigger] frames[i]),
        0 <= n <= frames.len(),
    ensures
        frames_of(concat(frames)) == Some(spans_of(frames, 0)),
        frames_of(concat(frames.take(n))) == Some(spans_of(frames, 0).take(n)),
{
    let e = Seq::<u8>::empty();
    assert(e + concat(frames) =~= concat(frames));
    lemma_frames_after(e, frames);
    let t = frames.take(n);
    assert(forall|i: int| 0 <= i < t.len() ==> t[i] == frames[i]);
    assert(e + concat(t) =~= concat(t));
    lemma_frames_after(e, t);
    lemma_spans_take(frames, 0, n);
}

/// A log written as a sequence of whole frames and cut inside its frame `n`
/// does not cut into whole frames: reopening it fails.
pub proof fn lemma_truncate_inside_frame(frames: Seq<Seq<u8>>, n: int, p: int)
    requires
        forall|i: int| 0 <= i < frames.len() ==> is_frame(#[trigger] frames[i]),
        0 <= n < frames.len(),
        0 < p < frames[n].len(),
    ensures
        frames_of(concat(frames.take(n)) + frames[n].take(p)) is None,
{
    let e = Seq::<u8>::empty();
    let t = frames.take(n);
    assert(forall|i: int| 0 <= i < t.len() ==> t[i] == frames[i]);
    assert(e + concat(t) + frames[n].take(p) =~= concat(t) + frames[n].take(p));
    lemma_partial_after(e, t, frames[n], p);
}

} // verus!
