use edcore::client_event::{
    deserialize_key, serialize_key, ClientEvent, ClientEventPoll, ClientHandle, poll_client_event,
};
use edcore::connection::ReadBuf;
use edcore::key::Key;
use edcore::serialization::{DeserializationSlice, SerializationBuf};

fn assert_key_serialization(key: Key) {
    let mut buf = SerializationBuf::default();
    serialize_key(key, &mut buf);
    let slice = buf.as_slice();
    let mut deserializer = DeserializationSlice::from_slice(slice);
    assert!(!deserializer.as_slice().is_empty());
    match deserialize_key(&mut deserializer) {
        Ok(k) => assert_eq!(key, k),
        Err(_) => assert!(false),
    }
}

#[test]
fn key_serialization() {
    assert_key_serialization(Key::Nil);
    assert_key_serialization(Key::Backspace);
    assert_key_serialization(Key::Enter);
    assert_key_serialization(Key::Left);
    assert_key_serialization(Key::Right);
    assert_key_serialization(Key::Up);
    assert_key_serialization(Key::Down);
    assert_key_serialization(Key::Home);
    assert_key_serialization(Key::End);
    assert_key_serialization(Key::PageUp);
    assert_key_serialization(Key::PageDown);
    assert_key_serialization(Key::Tab);
    assert_key_serialization(Key::Delete);
    assert_key_serialization(Key::F(0));
    assert_key_serialization(Key::F(9));
    assert_key_serialization(Key::F(12));
    assert_key_serialization(Key::F(99));
    assert_key_serialization(Key::Char('a'));
    assert_key_serialization(Key::Char('z'));
    assert_key_serialization(Key::Char('A'));
    assert_key_serialization(Key::Char('Z'));
    assert_key_serialization(Key::Char('0'));
    assert_key_serialization(Key::Char('9'));
    assert_key_serialization(Key::Char('$'));
    assert_key_serialization(Key::Ctrl('a'));
    assert_key_serialization(Key::Ctrl('z'));
    assert_key_serialization(Key::Ctrl('A'));
    assert_key_serialization(Key::Ctrl('Z'));
    assert_key_serialization(Key::Ctrl('0'));
    assert_key_serialization(Key::Ctrl('9'));
    assert_key_serialization(Key::Ctrl('$'));
    assert_key_serialization(Key::Alt('a'));
    assert_key_serialization(Key::Alt('z'));
    assert_key_serialization(Key::Alt('A'));
    assert_key_serialization(Key::Alt('Z'));
    assert_key_serialization(Key::Alt('0'));
    assert_key_serialization(Key::Alt('9'));
    assert_key_serialization(Key::Alt('$'));
    assert_key_serialization(Key::Esc);
}

fn sample_events() -> Vec<ClientEvent> {
    vec![
        ClientEvent::Key(None, Key::Char('x')),
        ClientEvent::Key(Some(ClientHandle::from_index(3)), Key::Esc),
        ClientEvent::Resize(None, 80, 24),
        ClientEvent::Command(Some(ClientHandle::from_index(1)), String::from("quit")),
        ClientEvent::Command(None, String::from("open src/main.rs")),
    ]
}

#[test]
fn event_round_trip() {
    for event in sample_events() {
        let mut buf = SerializationBuf::new();
        event.serialize(&mut buf);
        let mut deserializer = DeserializationSlice::from_slice(buf.as_slice());
        let back = ClientEvent::deserialize(&mut deserializer).unwrap();
        assert_eq!(event, back);
        assert!(deserializer.as_slice().is_empty());
    }
}

#[test]
fn event_deserialize_rejects_unknown_discriminant() {
    let bytes = [9u8, 0, 0];
    let mut deserializer = DeserializationSlice::from_slice(&bytes);
    assert!(ClientEvent::deserialize(&mut deserializer).is_err());
}

#[test]
fn framing_survives_any_split() {
    let events = sample_events();
    let mut stream = SerializationBuf::new();
    for event in events.iter() {
        event.serialize(&mut stream);
    }
    let bytes = stream.as_slice();

    for cut in 0..=bytes.len() {
        let mut reader = ReadBuf::new();
        let mut decoded: Vec<ClientEvent> = Vec::new();
        for half in [&bytes[..cut], &bytes[cut..]] {
            reader.push_bytes(half);
            loop {
                match poll_client_event(&mut reader) {
                    ClientEventPoll::Event(e) => decoded.push(e),
                    ClientEventPoll::NeedMoreBytes => break,
                    ClientEventPoll::Corrupted => panic!("stream corrupted at cut {}", cut),
                }
            }
            reader.compact();
        }
        assert_eq!(events, decoded);
    }
}

#[test]
fn partial_event_waits_for_more_bytes() {
    let event = ClientEvent::Command(None, String::from("write-all"));
    let mut buf = SerializationBuf::new();
    event.serialize(&mut buf);
    let bytes = buf.as_slice();

    let mut reader = ReadBuf::new();
    reader.push_bytes(&bytes[..bytes.len() - 1]);
    match poll_client_event(&mut reader) {
        ClientEventPoll::NeedMoreBytes => {}
        _ => panic!("an incomplete record must wait"),
    }
    reader.push_bytes(&bytes[bytes.len() - 1..]);
    match poll_client_event(&mut reader) {
        ClientEventPoll::Event(e) => assert_eq!(event, e),
        _ => panic!("the completed record must decode"),
    }
}
