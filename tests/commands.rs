use my_redis::command::{apply, respond, Command};
use my_redis::frame::{encode, Frame};
use my_redis::connection::FrameBuffer;
use my_redis::store::Store;

fn bulk(s: &str) -> Frame {
    Frame::Bulk(s.as_bytes().to_vec())
}

fn request(words: &[&str]) -> Frame {
    Frame::Array(words.iter().map(|w| bulk(w)).collect())
}

#[test]
fn set_then_get() {
    let mut store = Store::new();
    let reply = respond(&mut store, &request(&["SET", "hello", "world"]));
    assert_eq!(encode(&reply).unwrap(), b"+OK\r\n".to_vec());
    let reply = respond(&mut store, &request(&["GET", "hello"]));
    assert_eq!(encode(&reply).unwrap(), b"$5\r\nworld\r\n".to_vec());
}

#[test]
fn get_missing_is_null() {
    let mut store = Store::new();
    let reply = respond(&mut store, &request(&["GET", "missing"]));
    assert_eq!(encode(&reply).unwrap(), b"$-1\r\n".to_vec());
}

#[test]
fn set_overwrites() {
    let mut store = Store::new();
    respond(&mut store, &request(&["set", "k", "1"]));
    respond(&mut store, &request(&["Set", "j", "2"]));
    respond(&mut store, &request(&["SET", "k", "3"]));
    assert_eq!(store.get(b"k"), Some(b"3".to_vec()));
    assert_eq!(store.get(b"j"), Some(b"2".to_vec()));
    assert_eq!(respond(&mut store, &request(&["get", "k"])), bulk("3"));
}

#[test]
fn unknown_command_is_error_reply() {
    let mut store = Store::new();
    let reply = respond(&mut store, &request(&["PING"]));
    assert_eq!(reply, Frame::Error("ERR unknown command".to_string()));
    let reply = respond(&mut store, &request(&["GET"]));
    assert_eq!(reply, Frame::Error("ERR unknown command".to_string()));
    let reply = respond(&mut store, &Frame::Simple("GET".to_string()));
    assert_eq!(reply, Frame::Error("ERR unknown command".to_string()));
    let reply = respond(&mut store, &request(&["GET", "x"]));
    assert_eq!(reply, Frame::Null);
}

#[test]
fn commands_from_frames() {
    assert!(matches!(Command::from_frame(&request(&["GET", "a"])), Command::Get { key } if key == b"a".to_vec()));
    let simple = Frame::Array(vec![Frame::Simple("set".to_string()), bulk("a"), bulk("b")]);
    assert!(matches!(Command::from_frame(&simple), Command::Put { key, value } if key == b"a".to_vec() && value == b"b".to_vec()));
    assert!(matches!(Command::from_frame(&request(&["DEL", "a"])), Command::Unknown(name) if name == b"DEL".to_vec()));
    assert!(matches!(Command::from_frame(&Frame::Array(vec![])), Command::Unknown(name) if name.is_empty()));
}

#[test]
fn apply_put_reply() {
    let mut store = Store::new();
    let reply = apply(&mut store, Command::Put { key: b"a".to_vec(), value: b"b".to_vec() });
    assert_eq!(reply, Frame::Simple("OK".to_string()));
    assert_eq!(store.get(b"a"), Some(b"b".to_vec()));
    assert_eq!(store.get(b"b"), None);
}

fn serve_bytes(store: &mut Store, buf: &mut FrameBuffer, bytes: &[u8]) -> Vec<u8> {
    assert_eq!(buf.receive(bytes), Ok(true));
    let frame = buf.next_frame().unwrap().unwrap();
    encode(&respond(store, &frame)).unwrap()
}

#[test]
fn set_then_get_over_the_wire() {
    let mut store = Store::new();
    let mut buf = FrameBuffer::new();
    assert_eq!(serve_bytes(&mut store, &mut buf, b"+SET hello world\r\n"), b"+OK\r\n".to_vec());
    assert_eq!(serve_bytes(&mut store, &mut buf, b"$9\r\nGET hello\r\n"), b"$5\r\nworld\r\n".to_vec());
    assert_eq!(buf.len(), 0);
}

#[test]
fn get_missing_over_the_wire() {
    let mut store = Store::new();
    let mut buf = FrameBuffer::new();
    assert_eq!(serve_bytes(&mut store, &mut buf, b"+GET missing\r\n"), b"$-1\r\n".to_vec());
}

#[test]
fn words_split_at_spaces() {
    let cmd = Command::from_frame(&Frame::Simple("  set   k  v ".to_string()));
    assert!(matches!(cmd, Command::Put { key, value } if key == b"k".to_vec() && value == b"v".to_vec()));
    let cmd = Command::from_frame(&Frame::Bulk(b"GET a b".to_vec()));
    assert!(matches!(cmd, Command::Unknown(name) if name == b"GET".to_vec()));
    let cmd = Command::from_frame(&Frame::Bulk(b"   ".to_vec()));
    assert!(matches!(cmd, Command::Unknown(name) if name.is_empty()));
}
