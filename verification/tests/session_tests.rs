use camera_bridge::buffers::BufferLedger;
use camera_bridge::errors::{error_message, CaptureError};
use camera_bridge::format::{Descriptor, PixelFormat};
use camera_bridge::session::{check_devices, check_streams, SessionTable, StreamEvent};
use camera_bridge::stream::SyntheticStream;

fn test_descriptor() -> Descriptor {
    Descriptor { width: 640, height: 480, pixfmt: PixelFormat::Rgb(24) }
}

#[test]
fn create_then_read_descriptor() {
    let mut table = SessionTable::new();
    let h = table.create_session(test_descriptor());
    let d = table.descriptor(h).unwrap();
    assert_eq!(d, test_descriptor());
}

#[test]
fn distinct_sessions_are_independent() {
    let mut table = SessionTable::new();
    let h1 = table.create_session(test_descriptor());
    let h2 = table.create_session(Descriptor {
        width: 320,
        height: 240,
        pixfmt: PixelFormat::Jpeg,
    });
    assert_ne!(h1, h2);
    table.release_session(h1).unwrap();
    let d2 = table.descriptor(h2).unwrap();
    assert_eq!(d2.width, 320);
    assert_eq!(d2.pixfmt, PixelFormat::Jpeg);
}

#[test]
fn released_handle_is_rejected_everywhere() {
    let mut table = SessionTable::new();
    let h = table.create_session(test_descriptor());
    table.release_session(h).unwrap();
    assert!(matches!(table.descriptor(h), Err(CaptureError::PreconditionViolation)));
    assert!(matches!(
        table.pull_frame(h, StreamEvent::Frame(vec![1, 2, 3])),
        Err(CaptureError::PreconditionViolation)
    ));
    assert!(matches!(table.release_session(h), Err(CaptureError::PreconditionViolation)));
    // a later creation never resurrects the released handle
    let h2 = table.create_session(test_descriptor());
    assert_ne!(h, h2);
    assert!(matches!(table.descriptor(h), Err(CaptureError::PreconditionViolation)));
}

#[test]
fn unknown_handle_is_rejected() {
    let table = SessionTable::new();
    assert!(matches!(table.descriptor(42), Err(CaptureError::PreconditionViolation)));
    assert!(matches!(
        table.pull_frame(42, StreamEvent::Ended),
        Err(CaptureError::PreconditionViolation)
    ));
}

#[test]
fn pull_n_frames_then_stream_ends() {
    let frames = vec![vec![1u8, 2, 3], vec![4u8, 5], vec![6u8]];
    let mut source = SyntheticStream::new(frames.clone());
    let mut table = SessionTable::new();
    let h = table.create_session(test_descriptor());
    for expected in &frames {
        let fb = table.pull_frame(h, source.next_event()).unwrap();
        assert_eq!(&fb.bytes, expected);
        assert_eq!(fb.len, expected.len());
    }
    for _ in 0..2 {
        assert!(matches!(
            table.pull_frame(h, source.next_event()),
            Err(CaptureError::StreamEnded)
        ));
    }
    // a failed pull does not close the session
    let d = table.descriptor(h).unwrap();
    assert_eq!(d, test_descriptor());
}

#[test]
fn pull_surfaces_native_read_error() {
    let mut table = SessionTable::new();
    let h = table.create_session(test_descriptor());
    let r = table.pull_frame(h, StreamEvent::ReadError(b"bus reset".to_vec()));
    match r {
        Err(CaptureError::StreamRead(m)) => assert_eq!(m, b"bus reset".to_vec()),
        other => panic!("unexpected outcome: {:?}", other),
    }
}

#[test]
fn empty_enumerations_fail_with_their_own_errors() {
    assert!(matches!(check_devices(0), Err(CaptureError::NoDevice)));
    assert_eq!(check_devices(3).unwrap(), 0);
    assert!(matches!(check_streams(0), Err(CaptureError::NoStream)));
    assert_eq!(check_streams(1).unwrap(), 0);
}

#[test]
fn no_device_error_message_is_classifiable() {
    let msg = error_message(&CaptureError::NoDevice);
    assert_eq!(msg, b"NoDeviceError".to_vec());
}

#[test]
fn error_messages_carry_native_diagnostics() {
    let msg = error_message(&CaptureError::StreamRead(b"timeout".to_vec()));
    assert_eq!(msg, b"StreamReadError: timeout".to_vec());
    let msg = error_message(&CaptureError::DeviceOpen(b"busy".to_vec()));
    assert_eq!(msg, b"DeviceOpenError: busy".to_vec());
    let msg = error_message(&CaptureError::StreamEnded);
    assert_eq!(msg, b"StreamEndedError".to_vec());
    let msg = error_message(&CaptureError::PreconditionViolation);
    assert_eq!(msg, b"PreconditionViolation".to_vec());
}

#[test]
fn buffer_is_reclaimed_exactly_once() {
    let mut ledger = BufferLedger::new();
    let t1 = ledger.issue(1024);
    let t2 = ledger.issue(0);
    assert_ne!(t1, t2);
    assert_eq!(ledger.reclaim(t1).unwrap(), 1024);
    assert!(matches!(ledger.reclaim(t1), Err(CaptureError::PreconditionViolation)));
    // a later issue never resurrects a withdrawn token
    let t3 = ledger.issue(7);
    assert_ne!(t1, t3);
    assert!(matches!(ledger.reclaim(t1), Err(CaptureError::PreconditionViolation)));
    assert_eq!(ledger.reclaim(t2).unwrap(), 0);
}

#[test]
fn unknown_buffer_token_is_rejected() {
    let mut ledger = BufferLedger::new();
    assert!(matches!(ledger.reclaim(5), Err(CaptureError::PreconditionViolation)));
}

#[test]
fn synthetic_stream_reports_frames_in_order() {
    let mut source = SyntheticStream::new(vec![vec![9u8], vec![8u8, 7]]);
    match source.next_event() {
        StreamEvent::Frame(b) => assert_eq!(b, vec![9u8]),
        _ => panic!("expected a frame"),
    }
    match source.next_event() {
        StreamEvent::Frame(b) => assert_eq!(b, vec![8u8, 7]),
        _ => panic!("expected a frame"),
    }
    assert!(matches!(source.next_event(), StreamEvent::Ended));
}

#[test]
fn descriptor_payload_is_the_encoded_descriptor() {
    let mut table = SessionTable::new();
    let h = table.create_session(test_descriptor());
    let payload = table.descriptor_payload(h).unwrap();
    assert_eq!(payload, b"{\"width\":640,\"height\":480,\"pixfmt\":{\"Rgb\":24}}".to_vec());
    table.release_session(h).unwrap();
    assert!(matches!(
        table.descriptor_payload(h),
        Err(CaptureError::PreconditionViolation)
    ));
}

#[test]
fn descriptor_payload_reports_encoding_failure() {
    let mut table = SessionTable::new();
    let h = table.create_session(Descriptor {
        width: 1,
        height: 1,
        pixfmt: PixelFormat::Custom(b"has\0null".to_vec()),
    });
    assert!(matches!(table.descriptor_payload(h), Err(CaptureError::Encoding)));
}
