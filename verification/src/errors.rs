//! Error taxonomy of the boundary protocol.

use vstd::prelude::*;

verus! {

/// Everything that an operation of this library can report. Each variant is
/// terminal to the operation that raised it, never to the process; variants
/// that carry bytes hold the native layer's diagnostic text.
#[derive(Debug)]
pub enum CaptureError {
    /// Device enumeration found nothing to open.
    NoDevice,
    /// The native layer failed to open the chosen device.
    DeviceOpen(Vec<u8>),
    /// The opened device offers no stream.
    NoStream,
    /// The native layer failed to start the chosen stream.
    StreamStart(Vec<u8>),
    /// The stream is exhausted (end of stream, device unplugged).
    StreamEnded,
    /// The native layer reported a hardware or transport error.
    StreamRead(Vec<u8>),
    /// The descriptor cannot be serialized (non-representable payload).
    Encoding,
    /// The call broke a caller obligation: a handle or buffer token that
    /// does not name a live resource. A caller bug, not a device condition.
    PreconditionViolation,
}

/// Mathematical model of a `CaptureError`.
pub enum CaptureErrorModel {
    NoDevice,
    DeviceOpen(Seq<u8>),
    NoStream,
    StreamStart(Seq<u8>),
    StreamEnded,
    StreamRead(Seq<u8>),
    Encoding,
    PreconditionViolation,
}

impl View for CaptureError {
    type V = CaptureErrorModel;

    open spec fn view(&self) -> CaptureErrorModel {
        match self {
            CaptureError::NoDevice => CaptureErrorModel::NoDevice,
            CaptureError::DeviceOpen(m) => CaptureErrorModel::DeviceOpen(m@),
            CaptureError::NoStream => CaptureErrorModel::NoStream,
            CaptureError::StreamStart(m) => CaptureErrorModel::StreamStart(m@),
            CaptureError::StreamEnded => CaptureErrorModel::StreamEnded,
            CaptureError::StreamRead(m) => CaptureErrorModel::StreamRead(m@),
            CaptureError::Encoding => CaptureErrorModel::Encoding,
            CaptureError::PreconditionViolation => CaptureErrorModel::PreconditionViolation,
        }
    }
}


// ---------------------------------------------------------------------------
// The encoded error payload
// ---------------------------------------------------------------------------

/// The bytes of `NoDeviceError`.
pub open spec fn tag_no_device() -> Seq<u8> {
    seq![78u8, 111, 68, 101, 118, 105, 99, 101, 69, 114, 114, 111, 114]
}

/// The bytes of `DeviceOpenError:` and a separator.
pub open spec fn tag_device_open() -> Seq<u8> {
    seq![68u8, 101, 118, 105, 99, 101, 79, 112, 101, 110, 69, 114, 114, 111, 114, 58, 32]
}

/// The bytes of `NoStreamError`.
pub open spec fn tag_no_stream() -> Seq<u8> {
    seq![78u8, 111, 83, 116, 114, 101, 97, 109, 69, 114, 114, 111, 114]
}

/// The bytes of `StreamStartError:` and a separator.
pub open spec fn tag_stream_start() -> Seq<u8> {
    seq![83u8, 116, 114, 101, 97, 109, 83, 116, 97, 114, 116, 69, 114, 114, 111, 114, 58, 32]
}

/// The bytes of `StreamEndedError`.
pub open spec fn tag_stream_ended() -> Seq<u8> {
    seq![83u8, 116, 114, 101, 97, 109, 69, 110, 100, 101, 100, 69, 114, 114, 111, 114]
}

/// The bytes of `StreamReadError:` and a separator.
pub open spec fn tag_stream_read() -> Seq<u8> {
    seq![83u8, 116, 114, 101, 97, 109, 82, 101, 97, 100, 69, 114, 114, 111, 114, 58, 32]
}

/// The bytes of `EncodingError`.
pub open spec fn tag_encoding() -> Seq<u8> {
    seq![69u8, 110, 99, 111, 100, 105, 110, 103, 69, 114, 114, 111, 114]
}

/// The bytes of `PreconditionViolation`.
pub open spec fn tag_precondition() -> Seq<u8> {
    seq![80u8, 114, 101, 99, 111, 110, 100, 105, 116, 105, 111, 110, 86, 105, 111, 108, 97, 116, 105, 111, 110]
}

/// The human-readable text that crosses the boundary in place of a success
/// payload when an operation fails: the error's class name, and, for the
/// variants that carry one, the native diagnostic after a separator.
pub open spec fn spec_error_message(e: CaptureErrorModel) -> Seq<u8> {
    match e {
        CaptureErrorModel::NoDevice => tag_no_device(),
        CaptureErrorModel::DeviceOpen(m) => tag_device_open() + m,
        CaptureErrorModel::NoStream => tag_no_stream(),
        CaptureErrorModel::StreamStart(m) => tag_stream_start() + m,
        CaptureErrorModel::StreamEnded => tag_stream_ended(),
        CaptureErrorModel::StreamRead(m) => tag_stream_read() + m,
        CaptureErrorModel::Encoding => tag_encoding(),
        CaptureErrorModel::PreconditionViolation => tag_precondition(),
    }
}

/// Appends the bytes of the `NoDeviceError` tag.
fn push_tag_no_device(out: &mut Vec<u8>)
    ensures
        final(out)@ == old(out)@ + tag_no_device(),
{
    out.push(78); out.push(111); out.push(68); out.push(101); out.push(118); out.push(105);
    out.push(99); out.push(101); out.push(69); out.push(114); out.push(114); out.push(111);
    out.push(114);
    proof {
        assert(out@ =~= old(out)@ + tag_no_device());
    }
}

/// Appends the bytes of the `DeviceOpenError:` tag.
fn push_tag_device_open(out: &mut Vec<u8>)
    ensures
        final(out)@ == old(out)@ + tag_device_open(),
{
    out.push(68); out.push(101); out.push(118); out.push(105); out.push(99); out.push(101);
    out.push(79); out.push(112); out.push(101); out.push(110); out.push(69); out.push(114);
    out.push(114); out.push(111); out.push(114); out.push(58); out.push(32);
    proof {
        assert(out@ =~= old(out)@ + tag_device_open());
    }
}

/// Appends the bytes of the `NoStreamError` tag.
fn push_tag_no_stream(out: &mut Vec<u8>)
    ensures
        final(out)@ == old(out)@ + tag_no_stream(),
{
    out.push(78); out.push(111); out.push(83); out.push(116); out.push(114); out.push(101);
    out.push(97); out.push(109); out.push(69); out.push(114); out.push(114); out.push(111);
    out.push(114);
    proof {
        assert(out@ =~= old(out)@ + tag_no_stream());
    }
}

/// Appends the bytes of the `StreamStartError:` tag.
fn push_tag_stream_start(out: &mut Vec<u8>)
    ensures
        final(out)@ == old(out)@ + tag_stream_start(),
{
    out.push(83); out.push(116); out.push(114); out.push(101); out.push(97); out.push(109);
    out.push(83); out.push(116); out.push(97); out.push(114); out.push(116); out.push(69);
    out.push(114); out.push(114); out.push(111); out.push(114); out.push(58); out.push(32);
    proof {
        assert(out@ =~= old(out)@ + tag_stream_start());
    }
}

/// Appends the bytes of the `StreamEndedError` tag.
fn push_tag_stream_ended(out: &mut Vec<u8>)
    ensures
        final(out)@ == old(out)@ + tag_stream_ended(),
{
    out.push(83); out.push(116); out.push(114); out.push(101); out.push(97); out.push(109);
    out.push(69); out.push(110); out.push(100); out.push(101); out.push(100); out.push(69);
    out.push(114); out.push(114); out.push(111); out.push(114);
    proof {
        assert(out@ =~= old(out)@ + tag_stream_ended());
    }
}

/// Appends the bytes of the `StreamReadError:` tag.
fn push_tag_stream_read(out: &mut Vec<u8>)
    ensures
        final(out)@ == old(out)@ + tag_stream_read(),
{
    out.push(83); out.push(116); out.push(114); out.push(101); out.push(97); out.push(109);
    out.push(82); out.push(101); out.push(97); out.push(100); out.push(69); out.push(114);
    out.push(114); out.push(111); out.push(114); out.push(58); out.push(32);
    proof {
        assert(out@ =~= old(out)@ + tag_stream_read());
    }
}

/// Appends the bytes of the `EncodingError` tag.
fn push_tag_encoding(out: &mut Vec<u8>)
    ensures
        final(out)@ == old(out)@ + tag_encoding(),
{
    out.push(69); out.push(110); out.push(99); out.push(111); out.push(100); out.push(105);
    out.push(110); out.push(103); out.push(69); out.push(114); out.push(114); out.push(111);
    out.push(114);
    proof {
        assert(out@ =~= old(out)@ + tag_encoding());
    }
}

/// Appends the bytes of the `PreconditionViolation` tag.
fn push_tag_precondition(out: &mut Vec<u8>)
    ensures
        final(out)@ == old(out)@ + tag_precondition(),
{
    out.push(80); out.push(114); out.push(101); out.push(99); out.push(111); out.push(110);
    out.push(100); out.push(105); out.push(116); out.push(105); out.push(111); out.push(110);
    out.push(86); out.push(105); out.push(111); out.push(108); out.push(97); out.push(116);
    out.push(105); out.push(111); out.push(110);
    proof {
        assert(out@ =~= old(out)@ + tag_precondition());
    }
}

/// Renders an error as the encoded text payload of `spec_error_message`.
pub fn error_message(e: &CaptureError) -> (r: Vec<u8>)
    ensures
        r@ == spec_error_message(e@),
{
    let mut out: Vec<u8> = Vec::new();
    match e {
        CaptureError::NoDevice => {
            push_tag_no_device(&mut out);
        }
        CaptureError::DeviceOpen(m) => {
            push_tag_device_open(&mut out);
            append_bytes(&mut out, m);
        }
        CaptureError::NoStream => {
            push_tag_no_stream(&mut out);
        }
        CaptureError::StreamStart(m) => {
            push_tag_stream_start(&mut out);
            append_bytes(&mut out, m);
        }
        CaptureError::StreamEnded => {
            push_tag_stream_ended(&mut out);
        }
        CaptureError::StreamRead(m) => {
            push_tag_stream_read(&mut out);
            append_bytes(&mut out, m);
        }
        CaptureError::Encoding => {
            push_tag_encoding(&mut out);
        }
        CaptureError::PreconditionViolation => {
            push_tag_precondition(&mut out);
        }
    }
    out
}

/// Appends the bytes of `m`.
fn append_bytes(out: &mut Vec<u8>, m: &Vec<u8>)
    ensures
        final(out)@ == old(out)@ + m@,
{
    let mut i: usize = 0;
    while i < m.len()
        invariant
            i <= m.len(),
            out@ == old(out)@ + m@.take(i as int),
        decreases m.len() - i,
    {
        out.push(m[i]);
        i += 1;
        proof {
            assert(out@ =~= old(out)@ + m@.take(i as int));
        }
    }
    proof {
        assert(m@.take(m@.len() as int) =~= m@);
    }
}

} // verus!

