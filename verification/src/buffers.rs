//! Ledger for transferred byte buffers.
//!
//! When a buffer's address and length are published to the far side, its
//! ownership moves there, once; the far side later returns it through a
//! reclaim call. The ledger is the native side's record of that handoff:
//! a token is issued when the buffer is handed out and withdrawn when it
//! comes back, so a buffer can be reclaimed exactly once, and a token that
//! was never issued, or was already reclaimed, is rejected.

use vstd::prelude::*;
use crate::errors::CaptureError;

verus! {

/// The record of outstanding transferred buffers. Token `t` names the
/// buffer issued `t`-th; a withdrawn token is never issued again.
pub struct BufferLedger {
    /// For every token ever issued, the byte length of its buffer while
    /// the buffer is outstanding.
    pub entries: Vec<Option<usize>>,
}

impl BufferLedger {
    /// Number of tokens ever issued.
    pub open spec fn spec_len(&self) -> nat {
        self.entries@.len()
    }

    /// The token names a buffer that is out with the far side.
    pub open spec fn spec_outstanding(&self, t: int) -> bool {
        0 <= t < self.entries@.len() && self.entries@[t] is Some
    }

    /// The length recorded for an outstanding buffer.
    pub open spec fn spec_length(&self, t: int) -> usize
        recommends
            self.spec_outstanding(t),
    {
        self.entries@[t]->Some_0
    }

    /// Outstanding tokens and their lengths agree between two ledgers.
    pub open spec fn spec_preserves(&self, other: BufferLedger, t: int) -> bool {
        self.spec_outstanding(t) == other.spec_outstanding(t)
            && (self.spec_outstanding(t) ==> self.spec_length(t) == other.spec_length(t))
    }

    /// An empty ledger.
    pub fn new() -> (l: BufferLedger)
        ensures
            l.spec_len() == 0,
    {
        BufferLedger { entries: Vec::new() }
    }

    /// Records a buffer of `len` bytes as handed out, and issues its fresh
    /// token.
    pub fn issue(&mut self, len: usize) -> (t: usize)
        ensures
            t as int == old(self).spec_len(),
            !old(self).spec_outstanding(t as int),
            final(self).spec_len() == old(self).spec_len() + 1,
            final(self).spec_outstanding(t as int),
            final(self).spec_length(t as int) == len,
            forall|k: int| 0 <= k < old(self).spec_len()
                ==> #[trigger] final(self).spec_preserves(*old(self), k),
    {
        let t = self.entries.len();
        self.entries.push(Some(len));
        t
    }

    /// Takes a buffer back. The first reclaim of an outstanding token
    /// succeeds with the recorded length and withdraws the token; a second
    /// reclaim of the same token, or a token never issued, is rejected and
    /// changes nothing.
    pub fn reclaim(&mut self, t: usize) -> (r: Result<usize, CaptureError>)
        ensures
            final(self).spec_len() == old(self).spec_len(),
            old(self).spec_outstanding(t as int) ==> (r matches Ok(len)
                && len == old(self).spec_length(t as int)),
            !old(self).spec_outstanding(t as int) ==> (r matches Err(e)
                && e == CaptureError::PreconditionViolation) && *final(self) == *old(self),
            !final(self).spec_outstanding(t as int),
            forall|k: int| 0 <= k < old(self).spec_len() && k != t as int
                ==> #[trigger] final(self).spec_preserves(*old(self), k),
    {
        if t >= self.entries.len() {
            return Err(CaptureError::PreconditionViolation);
        }
        let len = match self.entries[t] {
            Some(len) => len,
            None => {
                return Err(CaptureError::PreconditionViolation);
            }
        };
        self.entries.set(t, None);
        Ok(len)
    }
}

/// The single-reclaim law: once a token has been reclaimed, reclaiming it
/// again is rejected, whatever buffers were issued in between — a later
/// issue never resurrects a withdrawn token.
pub proof fn lemma_reclaimed_token_stays_dead(
    reclaimed: BufferLedger,
    after: BufferLedger,
    t: int,
)
    requires
        !reclaimed.spec_outstanding(t),
        t < reclaimed.spec_len(),
        after.spec_len() == reclaimed.spec_len() + 1,
        forall|k: int| 0 <= k < reclaimed.spec_len()
            ==> #[trigger] after.spec_preserves(reclaimed, k),
    ensures
        !after.spec_outstanding(t),
{
    if 0 <= t {
        assert(after.spec_preserves(reclaimed, t));
    }
}

} // verus!
