//! Session registry and the frame-pull protocol.
//!
//! A capture session bundles the descriptor negotiated for an open native
//! stream. Sessions live in a registry and are named across the boundary
//! only by an opaque handle; the far side never sees the registry's
//! internals. Handles are never reused: a released slot stays empty for the
//! life of the registry, so every operation on a released handle is
//! rejected by an explicit invalidity check and can never silently succeed.
//!
//! The native stream itself is driven by the unverified shell, which hands
//! each read outcome to `pull_frame` as a plain `StreamEvent`; everything
//! decided from that outcome is decided, and verified, here.

use vstd::prelude::*;
use crate::format::{Descriptor, DescriptorModel};
use crate::errors::{CaptureError, CaptureErrorModel};

verus! {

/// One read outcome of a native stream, as the unverified shell reports it.
#[derive(Debug)]
pub enum StreamEvent {
    /// A frame arrived, with its bytes.
    Frame(Vec<u8>),
    /// The stream is exhausted.
    Ended,
    /// The native layer failed, with its diagnostic text.
    ReadError(Vec<u8>),
}

/// Mathematical model of a `StreamEvent`.
pub enum StreamEventModel {
    Frame(Seq<u8>),
    Ended,
    ReadError(Seq<u8>),
}

impl View for StreamEvent {
    type V = StreamEventModel;

    open spec fn view(&self) -> StreamEventModel {
        match self {
            StreamEvent::Frame(b) => StreamEventModel::Frame(b@),
            StreamEvent::Ended => StreamEventModel::Ended,
            StreamEvent::ReadError(m) => StreamEventModel::ReadError(m@),
        }
    }
}

/// A byte buffer ready to cross the boundary, paired with the length that
/// is reported beside its address. The two always agree.
#[derive(Debug)]
pub struct FrameBuffer {
    /// The frame bytes, exactly sized.
    pub bytes: Vec<u8>,
    /// The byte length reported to the far side.
    pub len: usize,
}

/// What one pull decides from a read outcome: the frame bytes, or the
/// error that classifies the failure.
pub open spec fn spec_pull_outcome(ev: StreamEventModel) -> Result<Seq<u8>, CaptureErrorModel> {
    match ev {
        StreamEventModel::Frame(b) => Ok(b),
        StreamEventModel::Ended => Err(CaptureErrorModel::StreamEnded),
        StreamEventModel::ReadError(m) => Err(CaptureErrorModel::StreamRead(m)),
    }
}

/// Chooses a device from an enumeration of `count` devices. The first one
/// is taken, deterministically; an empty enumeration is the error that
/// reports an absent camera.
pub fn check_devices(count: usize) -> (r: Result<usize, CaptureError>)
    ensures
        count == 0 ==> (r matches Err(e) && e == CaptureError::NoDevice),
        count > 0 ==> (r matches Ok(i) && i == 0),
{
    if count == 0 {
        Err(CaptureError::NoDevice)
    } else {
        Ok(0)
    }
}

/// Chooses a stream from an enumeration of `count` streams, as
/// `check_devices` chooses a device.
pub fn check_streams(count: usize) -> (r: Result<usize, CaptureError>)
    ensures
        count == 0 ==> (r matches Err(e) && e == CaptureError::NoStream),
        count > 0 ==> (r matches Ok(i) && i == 0),
{
    if count == 0 {
        Err(CaptureError::NoStream)
    } else {
        Ok(0)
    }
}

/// The registry of capture sessions. Slot `h` backs the session named by
/// handle `h`; a slot emptied by release is never filled again.
pub struct SessionTable {
    /// One slot per handle ever issued.
    pub slots: Vec<Option<Descriptor>>,
}

impl SessionTable {
    /// Number of handles ever issued.
    pub open spec fn spec_len(&self) -> nat {
        self.slots@.len()
    }

    /// A handle names a live session.
    pub open spec fn spec_valid(&self, h: int) -> bool {
        0 <= h < self.slots@.len() && self.slots@[h] is Some
    }

    /// The descriptor of the session named by a live handle.
    pub open spec fn spec_descriptor(&self, h: int) -> DescriptorModel
        recommends
            self.spec_valid(h),
    {
        self.slots@[h]->Some_0@
    }

    /// Live handles and their descriptors agree between two registry states.
    pub open spec fn spec_preserves(&self, other: SessionTable, h: int) -> bool {
        self.spec_valid(h) == other.spec_valid(h)
            && (self.spec_valid(h) ==> self.spec_descriptor(h) == other.spec_descriptor(h))
    }

    /// An empty registry.
    pub fn new() -> (t: SessionTable)
        ensures
            t.spec_len() == 0,
    {
        SessionTable { slots: Vec::new() }
    }

    /// Registers a session that reached the open state, and issues its
    /// handle. The handle is fresh: it named nothing before this call.
    pub fn create_session(&mut self, descriptor: Descriptor) -> (h: usize)
        ensures
            h as int == old(self).spec_len(),
            !old(self).spec_valid(h as int),
            final(self).spec_len() == old(self).spec_len() + 1,
            final(self).spec_valid(h as int),
            final(self).spec_descriptor(h as int) == descriptor@,
            forall|k: int| 0 <= k < old(self).spec_len()
                ==> #[trigger] final(self).spec_preserves(*old(self), k),
    {
        let h = self.slots.len();
        self.slots.push(Some(descriptor));
        h
    }

    /// Reads the descriptor of a live session. A handle that names no live
    /// session is rejected; nothing else can happen to it.
    pub fn descriptor(&self, h: usize) -> (r: Result<Descriptor, CaptureError>)
        ensures
            self.spec_valid(h as int) ==> (r matches Ok(d) && d@ == self.spec_descriptor(
                h as int,
            )),
            !self.spec_valid(h as int) ==> (r matches Err(e)
                && e == CaptureError::PreconditionViolation),
    {
        if h < self.slots.len() {
            match &self.slots[h] {
                Some(d) => Ok(d.clone()),
                None => Err(CaptureError::PreconditionViolation),
            }
        } else {
            Err(CaptureError::PreconditionViolation)
        }
    }

    /// Produces the encoded descriptor of a live session, the success
    /// payload of the descriptor-reading boundary operation: the canonical
    /// encoding of exactly the stored descriptor, or the encoding error
    /// where that descriptor cannot be carried, or the rejection of a
    /// handle that names no live session.
    pub fn descriptor_payload(&self, h: usize) -> (r: Result<Vec<u8>, CaptureError>)
        ensures
            self.spec_valid(h as int) && crate::codec::representable(self.spec_descriptor(h as int))
                ==> (r matches Ok(v) && v@ == crate::codec::spec_encode(self.spec_descriptor(
                h as int,
            ))),
            self.spec_valid(h as int) && !crate::codec::representable(self.spec_descriptor(
                h as int,
            )) ==> (r matches Err(e) && e == CaptureError::Encoding),
            !self.spec_valid(h as int) ==> (r matches Err(e)
                && e == CaptureError::PreconditionViolation),
    {
        match self.descriptor(h) {
            Ok(d) => crate::codec::encode(&d),
            Err(e) => Err(e),
        }
    }

    /// Decides one frame pull on a live session from the stream's read
    /// outcome: a frame becomes an exactly-sized transferred buffer, an
    /// exhausted stream or a native failure becomes the matching error. A
    /// failed pull does not close the session; a handle that names no live
    /// session is rejected.
    pub fn pull_frame(&self, h: usize, event: StreamEvent) -> (r: Result<
        FrameBuffer,
        CaptureError,
    >)
        ensures
            !self.spec_valid(h as int) ==> (r matches Err(e)
                && e == CaptureError::PreconditionViolation),
            self.spec_valid(h as int) ==> match event@ {
                StreamEventModel::Frame(b) => (r matches Ok(fb) && fb.bytes@ == b
                    && fb.len as int == b.len()),
                StreamEventModel::Ended => (r matches Err(e)
                    && e@ == CaptureErrorModel::StreamEnded),
                StreamEventModel::ReadError(m) => (r matches Err(e)
                    && e@ == CaptureErrorModel::StreamRead(m)),
            },
    {
        if h >= self.slots.len() {
            return Err(CaptureError::PreconditionViolation);
        }
        let live = match &self.slots[h] {
            Some(_) => true,
            None => false,
        };
        if !live {
            return Err(CaptureError::PreconditionViolation);
        }
        match event {
            StreamEvent::Frame(bytes) => {
                let len = bytes.len();
                Ok(FrameBuffer { bytes, len })
            }
            StreamEvent::Ended => Err(CaptureError::StreamEnded),
            StreamEvent::ReadError(m) => Err(CaptureError::StreamRead(m)),
        }
    }

    /// Tears a session down. The slot is emptied and, because slots are
    /// never refilled, the handle is invalid from here on: every later
    /// operation on it is rejected. Releasing a dead handle is itself
    /// rejected, and changes nothing.
    pub fn release_session(&mut self, h: usize) -> (r: Result<(), CaptureError>)
        ensures
            final(self).spec_len() == old(self).spec_len(),
            old(self).spec_valid(h as int) ==> r is Ok,
            !old(self).spec_valid(h as int) ==> (r matches Err(e)
                && e == CaptureError::PreconditionViolation),
            !final(self).spec_valid(h as int),
            forall|k: int| 0 <= k < old(self).spec_len() && k != h as int
                ==> #[trigger] final(self).spec_preserves(*old(self), k),
    {
        if h >= self.slots.len() {
            return Err(CaptureError::PreconditionViolation);
        }
        let live = match &self.slots[h] {
            Some(_) => true,
            None => false,
        };
        if !live {
            return Err(CaptureError::PreconditionViolation);
        }
        self.slots.set(h, None);
        Ok(())
    }
}

/// The session-lifecycle law: once `release_session` has run on a handle,
/// that handle stays invalid across any later creation, and every
/// operation that takes a handle rejects an invalid one — the rejections
/// themselves are stated by `descriptor`, `pull_frame` and
/// `release_session`. Here: a fresh session never resurrects a released
/// handle.
pub proof fn lemma_released_handle_stays_dead(
    before: SessionTable,
    released: SessionTable,
    after: SessionTable,
    h: int,
    d: DescriptorModel,
)
    requires
        // `released` is `before` after a release of `h`
        !released.spec_valid(h),
        released.spec_len() == before.spec_len(),
        // `after` is `released` after some create_session
        after.spec_len() == released.spec_len() + 1,
        forall|k: int| 0 <= k < released.spec_len()
            ==> #[trigger] after.spec_preserves(released, k),
        h < released.spec_len(),
    ensures
        !after.spec_valid(h),
{
    if 0 <= h {
        assert(after.spec_preserves(released, h));
    }
}

} // verus!
