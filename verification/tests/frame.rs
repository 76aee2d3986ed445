//! Frames on the wire.

use spqx::frame::{
    le4_bytes, read_frame, shutdown_frame, write_frame, FrameReader, WORKER_INPUT_SHUTDOWN,
    WORKER_INPUT_SPEAK,
};

#[test]
fn a_frame_is_a_header_and_a_payload() {
    let bytes = write_frame(3, 0x0403_0201, &[7, 8]).unwrap();
    assert_eq!(bytes, vec![3, 1, 2, 3, 4, 2, 0, 0, 0, 7, 8]);
    assert_eq!(le4_bytes(24000), 24000u32.to_le_bytes().to_vec());
}

#[test]
fn written_frames_are_read_back() {
    let mut bytes = write_frame(1, 5, b"hello").unwrap();
    bytes.extend(write_frame(2, 6, &[]).unwrap());
    let (first, n) = read_frame(&bytes).unwrap();
    assert_eq!((first.frame_type, first.request_id, first.payload), (1, 5, b"hello".to_vec()));
    let (second, m) = read_frame(&bytes[n..]).unwrap();
    assert_eq!((second.frame_type, second.request_id, second.payload.len()), (2, 6, 0));
    assert_eq!(n + m, bytes.len());
}

#[test]
fn a_partial_frame_is_not_read() {
    let bytes = write_frame(1, 5, b"hello").unwrap();
    for k in 0..bytes.len() {
        assert!(read_frame(&bytes[..k]).is_none());
    }
}

#[test]
fn a_reader_puts_frames_together() {
    let mut bytes = write_frame(WORKER_INPUT_SPEAK, 9, "grüß".as_bytes()).unwrap();
    bytes.extend(write_frame(WORKER_INPUT_SHUTDOWN, 0, &[]).unwrap());
    for step in 1..bytes.len() {
        let mut reader = FrameReader::new();
        let mut frames = Vec::new();
        let mut at = 0;
        while at < bytes.len() {
            let n = (reader.wanted() as usize).min(step).min(bytes.len() - at);
            frames.extend(reader.feed(&bytes[at..at + n]));
            at += n;
        }
        assert_eq!(frames.len(), 2);
        assert_eq!(frames[0].payload, "grüß".as_bytes());
        assert_eq!((frames[0].frame_type, frames[0].request_id), (1, 9));
        assert_eq!(frames[1].frame_type, WORKER_INPUT_SHUTDOWN);
    }
}

#[test]
fn a_reader_asks_for_the_header_first() {
    let mut reader = FrameReader::new();
    assert_eq!(reader.wanted(), 9);
    assert!(reader.feed(&[1, 0, 0, 0]).is_none());
    assert_eq!(reader.wanted(), 5);
    assert!(reader.feed(&[0, 0, 1, 0, 0]).is_none());
    assert_eq!(reader.wanted(), 256);
}

#[test]
fn the_end_of_input_is_a_shutdown() {
    let frame = shutdown_frame();
    assert_eq!((frame.frame_type, frame.request_id, frame.payload.len()), (3, 0, 0));
}
