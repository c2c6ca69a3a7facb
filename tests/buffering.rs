use my_redis::connection::{FrameBuffer, ReadError};
use my_redis::frame::{encode, Frame, Malformation};

fn frames() -> Vec<Frame> {
    vec![
        Frame::Simple("OK".to_string()),
        Frame::Error("ERR no".to_string()),
        Frame::Integer(-12),
        Frame::Null,
        Frame::Bulk(b"hello\r\nworld".to_vec()),
    ]
}

#[test]
fn one_byte_at_a_time() {
    for f in frames() {
        let bytes = encode(&f).unwrap();
        let mut buf = FrameBuffer::new();
        for (i, b) in bytes.iter().enumerate() {
            assert_eq!(buf.next_frame(), Ok(None));
            assert_eq!(buf.receive(&[*b]), Ok(true));
            if i + 1 < bytes.len() {
                assert_eq!(buf.len(), i + 1);
            }
        }
        assert_eq!(buf.next_frame(), Ok(Some(f)));
        assert_eq!(buf.len(), 0);
    }
}

#[test]
fn two_chunks_at_every_split() {
    for f in frames() {
        let bytes = encode(&f).unwrap();
        for k in 0..=bytes.len() {
            let mut buf = FrameBuffer::new();
            assert_eq!(buf.receive(&bytes[..k]), if k == 0 { Ok(false) } else { Ok(true) });
            if k < bytes.len() {
                assert_eq!(buf.next_frame(), Ok(None));
                assert_eq!(buf.receive(&bytes[k..]), Ok(true));
            }
            assert_eq!(buf.next_frame(), Ok(Some(f.clone_frame())));
        }
    }
}

trait CloneFrame {
    fn clone_frame(&self) -> Frame;
}

impl CloneFrame for Frame {
    fn clone_frame(&self) -> Frame {
        match self {
            Frame::Simple(s) => Frame::Simple(s.clone()),
            Frame::Error(s) => Frame::Error(s.clone()),
            Frame::Integer(n) => Frame::Integer(*n),
            Frame::Null => Frame::Null,
            Frame::Bulk(b) => Frame::Bulk(b.clone()),
            Frame::Array(_) => panic!("arrays are not used here"),
        }
    }
}

#[test]
fn two_frames_in_one_read() {
    let mut bytes = encode(&Frame::Simple("OK".to_string())).unwrap();
    bytes.extend(encode(&Frame::Bulk(b"world".to_vec())).unwrap());
    let mut buf = FrameBuffer::new();
    assert_eq!(buf.receive(&bytes), Ok(true));
    assert_eq!(buf.next_frame(), Ok(Some(Frame::Simple("OK".to_string()))));
    assert_eq!(buf.len(), 11);
    assert_eq!(buf.next_frame(), Ok(Some(Frame::Bulk(b"world".to_vec()))));
    assert_eq!(buf.next_frame(), Ok(None));
}

#[test]
fn clean_close() {
    let mut buf = FrameBuffer::new();
    assert_eq!(buf.receive(&[]), Ok(false));
    let mut buf = FrameBuffer::new();
    assert_eq!(buf.receive(b":1\r\n"), Ok(true));
    assert_eq!(buf.next_frame(), Ok(Some(Frame::Integer(1))));
    assert_eq!(buf.receive(&[]), Ok(false));
}

#[test]
fn truncated_close() {
    let mut buf = FrameBuffer::new();
    assert_eq!(buf.receive(b"$5\r\nwor"), Ok(true));
    assert_eq!(buf.next_frame(), Ok(None));
    assert_eq!(buf.receive(&[]), Err(ReadError::Truncated));
    assert_eq!(buf.len(), 7);
}

#[test]
fn malformed_keeps_buffer() {
    let mut buf = FrameBuffer::new();
    assert_eq!(buf.receive(b"$-5\r\n"), Ok(true));
    assert_eq!(buf.next_frame(), Err(ReadError::Malformed(Malformation::BadLength)));
    assert_eq!(buf.len(), 5);
    let mut buf = FrameBuffer::new();
    assert_eq!(buf.receive(b"*2\r\n"), Ok(true));
    assert_eq!(buf.next_frame(), Err(ReadError::Unsupported));
}
