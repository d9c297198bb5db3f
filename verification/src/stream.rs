//! A synthetic frame source with a verified cursor.
//!
//! Tests and diagnostics drive the pull protocol against a finite stream
//! of prepared frames instead of camera hardware. The cursor semantics are
//! fully specified, which is what makes frame pulling deterministic under
//! single-threaded use.

use vstd::prelude::*;
use crate::format::clone_bytes;
use crate::errors::CaptureErrorModel;
use crate::session::{spec_pull_outcome, StreamEvent, StreamEventModel};

verus! {

/// The read outcome of a synthetic stream holding `frames`, observed with
/// its cursor at `pos`.
pub open spec fn spec_synthetic_event(frames: Seq<Seq<u8>>, pos: nat) -> StreamEventModel {
    if pos < frames.len() {
        StreamEventModel::Frame(frames[pos as int])
    } else {
        StreamEventModel::Ended
    }
}

/// Where the cursor stands after one read at `pos`.
pub open spec fn spec_next_pos(frames: Seq<Seq<u8>>, pos: nat) -> nat {
    if pos < frames.len() {
        pos + 1
    } else {
        pos
    }
}

/// Where the cursor stands after `k` reads of a fresh stream.
pub open spec fn spec_pos_after(frames: Seq<Seq<u8>>, k: nat) -> nat
    decreases k,
{
    if k == 0 {
        0
    } else {
        spec_next_pos(frames, spec_pos_after(frames, (k - 1) as nat))
    }
}

/// A finite stream of prepared frames, read once from front to back.
pub struct SyntheticStream {
    /// The frames, in the order they are produced.
    pub frames: Vec<Vec<u8>>,
    /// Index of the next frame to produce.
    pub pos: usize,
}

impl SyntheticStream {
    /// The frames as byte sequences.
    pub open spec fn spec_frames(&self) -> Seq<Seq<u8>> {
        self.frames@.map_values(|v: Vec<u8>| v@)
    }

    /// A fresh stream over `frames`.
    pub fn new(frames: Vec<Vec<u8>>) -> (s: SyntheticStream)
        ensures
            s.spec_frames() == frames@.map_values(|v: Vec<u8>| v@),
            s.pos == 0,
    {
        SyntheticStream { frames, pos: 0 }
    }

    /// Produces the next read outcome and advances the cursor, exactly as
    /// the spec-level stream does: the frame under the cursor while one
    /// remains, exhaustion forever after.
    pub fn next_event(&mut self) -> (ev: StreamEvent)
        ensures
            final(self).spec_frames() == old(self).spec_frames(),
            ev@ == spec_synthetic_event(old(self).spec_frames(), old(self).pos as nat),
            final(self).pos as nat == spec_next_pos(old(self).spec_frames(), old(self).pos as nat),
    {
        if self.pos < self.frames.len() {
            let bytes = clone_bytes(&self.frames[self.pos]);
            self.pos = self.pos + 1;
            StreamEvent::Frame(bytes)
        } else {
            StreamEvent::Ended
        }
    }
}

/// The frame-pull determinism law, single-threaded: reading a fresh
/// synthetic stream of N frames pull by pull, the first N pulls succeed
/// and hand out the frames in order — the pull after `k` earlier pulls,
/// `k < N`, yields exactly frame `k` — and every pull from the (N+1)th on
/// fails with the stream-ended error.
pub proof fn lemma_frame_pull_deterministic(frames: Seq<Seq<u8>>, k: nat)
    ensures
        spec_pos_after(frames, k) == if k <= frames.len() {
            k
        } else {
            frames.len()
        },
        k < frames.len() ==> spec_pull_outcome(
            spec_synthetic_event(frames, spec_pos_after(frames, k)),
        ) == Ok::<Seq<u8>, CaptureErrorModel>(frames[k as int]),
        k >= frames.len() ==> spec_pull_outcome(
            spec_synthetic_event(frames, spec_pos_after(frames, k)),
        ) == Err::<Seq<u8>, CaptureErrorModel>(CaptureErrorModel::StreamEnded),
    decreases k,
{
    if k > 0 {
        lemma_frame_pull_deterministic(frames, (k - 1) as nat);
    }
}

} // verus!
