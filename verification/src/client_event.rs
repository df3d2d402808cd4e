//! The client-to-server event codec: keys, resizes and command strings, each
//! a tagged record in the wire format of the serialization module, and the
//! incremental reader that decodes them from a stream of partial reads.

use vstd::prelude::*;
use vstd::string::StringSliceAdditionalSpecFns;

use crate::connection::ReadBuf;
use crate::key::{key_wf, Key};
use crate::serialization::{
    spec_read_char, spec_read_str, spec_read_u16, spec_read_u32, spec_read_u8, spec_ser_char,
    spec_ser_str, spec_ser_u16, spec_ser_u32, spec_ser_u8, DeserializationSlice, DeserializeError,
    SerializationBuf,
};

verus! {

/// The dense index a connected client is known by on the wire.
#[derive(Debug, Clone, Copy, PartialEq, Eq, Structural)]
pub struct ClientHandle {
    pub index: u32,
}

impl ClientHandle {
    pub fn from_index(index: u32) -> (r: Self)
        ensures
            r.index == index,
    {
        ClientHandle { index }
    }

    pub fn into_index(self) -> (r: u32)
        ensures
            r == self.index,
    {
        self.index
    }
}

/// An event a client sends to the server. The optional handle names the
/// client the event is for: absent, it means the sending connection itself.
#[derive(Debug, Clone, PartialEq, Eq)]
pub enum ClientEvent {
    Key(Option<ClientHandle>, Key),
    Resize(Option<ClientHandle>, u16, u16),
    Command(Option<ClientHandle>, String),
}

/// The mathematical value of a `ClientEvent`: command text as its character
/// sequence.
pub enum ClientEventV {
    Key(Option<ClientHandle>, Key),
    Resize(Option<ClientHandle>, u16, u16),
    Command(Option<ClientHandle>, Seq<char>),
}

impl View for ClientEvent {
    type V = ClientEventV;

    open spec fn view(&self) -> ClientEventV {
        match self {
            ClientEvent::Key(h, k) => ClientEventV::Key(*h, *k),
            ClientEvent::Resize(h, w, ht) => ClientEventV::Resize(*h, *w, *ht),
            ClientEvent::Command(h, s) => ClientEventV::Command(*h, s@),
        }
    }
}

/// The events the protocol can carry: keys within the enumerated range and
/// command text whose encoding fits the length prefix.
pub open spec fn client_event_wf(e: ClientEventV) -> bool {
    match e {
        ClientEventV::Key(_, k) => key_wf(k),
        ClientEventV::Resize(_, _, _) => true,
        ClientEventV::Command(_, s) => vstd::utf8::encode_utf8(s).len() <= u32::MAX,
    }
}

/// A key on the wire: a discriminant byte in declaration order, then the
/// payload of the carrying variants.
pub open spec fn spec_ser_key(k: Key) -> Seq<u8> {
    match k {
        Key::Nil => spec_ser_u8(0),
        Key::Backspace => spec_ser_u8(1),
        Key::Enter => spec_ser_u8(2),
        Key::Left => spec_ser_u8(3),
        Key::Right => spec_ser_u8(4),
        Key::Up => spec_ser_u8(5),
        Key::Down => spec_ser_u8(6),
        Key::Home => spec_ser_u8(7),
        Key::End => spec_ser_u8(8),
        Key::PageUp => spec_ser_u8(9),
        Key::PageDown => spec_ser_u8(10),
        Key::Tab => spec_ser_u8(11),
        Key::Delete => spec_ser_u8(12),
        Key::F(n) => spec_ser_u8(13) + spec_ser_u32(n as u32),
        Key::Char(c) => spec_ser_u8(14) + spec_ser_char(c),
        Key::Ctrl(c) => spec_ser_u8(15) + spec_ser_char(c),
        Key::Alt(c) => spec_ser_u8(16) + spec_ser_char(c),
        Key::Esc => spec_ser_u8(17),
    }
}

/// A key read back from the buffer at `i`: an unknown discriminant or a
/// function-key number outside the enumerated range is invalid.
pub open spec fn spec_read_key(b: Seq<u8>, i: int) -> Result<(Key, int), DeserializeError> {
    match spec_read_u8(b, i) {
        Err(e) => Err(e),
        Ok((d, j)) => match d {
            0u8 => Ok((Key::Nil, j)),
            1u8 => Ok((Key::Backspace, j)),
            2u8 => Ok((Key::Enter, j)),
            3u8 => Ok((Key::Left, j)),
            4u8 => Ok((Key::Right, j)),
            5u8 => Ok((Key::Up, j)),
            6u8 => Ok((Key::Down, j)),
            7u8 => Ok((Key::Home, j)),
            8u8 => Ok((Key::End, j)),
            9u8 => Ok((Key::PageUp, j)),
            10u8 => Ok((Key::PageDown, j)),
            11u8 => Ok((Key::Tab, j)),
            12u8 => Ok((Key::Delete, j)),
            13u8 => match spec_read_u32(b, j) {
                Err(e) => Err(e),
                Ok((n, j2)) => if n <= 99 {
                    Ok((Key::F(n as u8), j2))
                } else {
                    Err(DeserializeError::Invalid)
                },
            },
            14u8 => match spec_read_char(b, j) {
                Err(e) => Err(e),
                Ok((c, j2)) => Ok((Key::Char(c), j2)),
            },
            15u8 => match spec_read_char(b, j) {
                Err(e) => Err(e),
                Ok((c, j2)) => Ok((Key::Ctrl(c), j2)),
            },
            16u8 => match spec_read_char(b, j) {
                Err(e) => Err(e),
                Ok((c, j2)) => Ok((Key::Alt(c), j2)),
            },
            17u8 => Ok((Key::Esc, j)),
            _ => Err(DeserializeError::Invalid),
        },
    }
}

/// An optional client handle on the wire: a presence byte, then the index.
pub open spec fn spec_ser_opt_handle(h: Option<ClientHandle>) -> Seq<u8> {
    match h {
        None => spec_ser_u8(0),
        Some(handle) => spec_ser_u8(1) + spec_ser_u32(handle.index),
    }
}

pub open spec fn spec_read_opt_handle(b: Seq<u8>, i: int) -> Result<
    (Option<ClientHandle>, int),
    DeserializeError,
> {
    match spec_read_u8(b, i) {
        Err(e) => Err(e),
        Ok((d, j)) => match d {
            0u8 => Ok((None::<ClientHandle>, j)),
            1u8 => match spec_read_u32(b, j) {
                Err(e) => Err(e),
                Ok((v, j2)) => Ok((Some(ClientHandle { index: v }), j2)),
            },
            _ => Err(DeserializeError::Invalid),
        },
    }
}

/// An event on the wire: a discriminant byte in declaration order, the
/// target handle, then the variant's payload.
pub open spec fn spec_ser_event(e: ClientEventV) -> Seq<u8> {
    match e {
        ClientEventV::Key(h, k) => spec_ser_u8(0) + spec_ser_opt_handle(h) + spec_ser_key(k),
        ClientEventV::Resize(h, w, ht) => spec_ser_u8(1) + spec_ser_opt_handle(h) + spec_ser_u16(w)
            + spec_ser_u16(ht),
        ClientEventV::Command(h, s) => spec_ser_u8(2) + spec_ser_opt_handle(h) + spec_ser_str(s),
    }
}

pub open spec fn spec_read_event(b: Seq<u8>, i: int) -> Result<(ClientEventV, int), DeserializeError> {
    match spec_read_u8(b, i) {
        Err(e) => Err(e),
        Ok((d, j)) => match d {
            0u8 => match spec_read_opt_handle(b, j) {
                Err(e) => Err(e),
                Ok((h, j2)) => match spec_read_key(b, j2) {
                    Err(e) => Err(e),
                    Ok((k, j3)) => Ok((ClientEventV::Key(h, k), j3)),
                },
            },
            1u8 => match spec_read_opt_handle(b, j) {
                Err(e) => Err(e),
                Ok((h, j2)) => match spec_read_u16(b, j2) {
                    Err(e) => Err(e),
                    Ok((w, j3)) => match spec_read_u16(b, j3) {
                        Err(e) => Err(e),
                        Ok((ht, j4)) => Ok((ClientEventV::Resize(h, w, ht), j4)),
                    },
                },
            },
            2u8 => match spec_read_opt_handle(b, j) {
                Err(e) => Err(e),
                Ok((h, j2)) => match spec_read_str(b, j2) {
                    Err(e) => Err(e),
                    Ok((s, j3)) => Ok((ClientEventV::Command(h, s), j3)),
                },
            },
            _ => Err(DeserializeError::Invalid),
        },
    }
}

/// Writes one key in the wire format.
pub fn serialize_key(key: Key, serializer: &mut SerializationBuf)
    ensures
        final(serializer)@ == old(serializer)@ + spec_ser_key(key),
{
    match key {
        Key::Nil => serializer.write_u8(0),
        Key::Backspace => serializer.write_u8(1),
        Key::Enter => serializer.write_u8(2),
        Key::Left => serializer.write_u8(3),
        Key::Right => serializer.write_u8(4),
        Key::Up => serializer.write_u8(5),
        Key::Down => serializer.write_u8(6),
        Key::Home => serializer.write_u8(7),
        Key::End => serializer.write_u8(8),
        Key::PageUp => serializer.write_u8(9),
        Key::PageDown => serializer.write_u8(10),
        Key::Tab => serializer.write_u8(11),
        Key::Delete => serializer.write_u8(12),
        Key::F(n) => {
            serializer.write_u8(13);
            serializer.write_u32(n as u32);
            proof {
                assert(final(serializer)@ =~= old(serializer)@ + spec_ser_key(key));
            }
        },
        Key::Char(c) => {
            serializer.write_u8(14);
            serializer.write_char(c);
            proof {
                assert(final(serializer)@ =~= old(serializer)@ + spec_ser_key(key));
            }
        },
        Key::Ctrl(c) => {
            serializer.write_u8(15);
            serializer.write_char(c);
            proof {
                assert(final(serializer)@ =~= old(serializer)@ + spec_ser_key(key));
            }
        },
        Key::Alt(c) => {
            serializer.write_u8(16);
            serializer.write_char(c);
            proof {
                assert(final(serializer)@ =~= old(serializer)@ + spec_ser_key(key));
            }
        },
        Key::Esc => serializer.write_u8(17),
    }
}

/// Reads one key back in the wire format.
pub fn deserialize_key(deserializer: &mut DeserializationSlice) -> (r: Result<
    Key,
    DeserializeError,
>)
    requires
        old(deserializer).wf(),
    ensures
        final(deserializer).wf(),
        final(deserializer).spec_data() == old(deserializer).spec_data(),
        ({
            let sr = spec_read_key(old(deserializer).spec_data(), old(deserializer).spec_pos());
            match r {
                Ok(k) => sr is Ok && sr->Ok_0.0 == k && final(deserializer).spec_pos()
                    == sr->Ok_0.1,
                Err(e) => sr == Err::<(Key, int), DeserializeError>(e),
            }
        }),
{
    let discriminant = match deserializer.read_u8() {
        Ok(d) => d,
        Err(e) => {
            return Err(e);
        },
    };
    match discriminant {
        0 => Ok(Key::Nil),
        1 => Ok(Key::Backspace),
        2 => Ok(Key::Enter),
        3 => Ok(Key::Left),
        4 => Ok(Key::Right),
        5 => Ok(Key::Up),
        6 => Ok(Key::Down),
        7 => Ok(Key::Home),
        8 => Ok(Key::End),
        9 => Ok(Key::PageUp),
        10 => Ok(Key::PageDown),
        11 => Ok(Key::Tab),
        12 => Ok(Key::Delete),
        13 => {
            let n = match deserializer.read_u32() {
                Ok(n) => n,
                Err(e) => {
                    return Err(e);
                },
            };
            if n <= 99 {
                Ok(Key::F(n as u8))
            } else {
                Err(DeserializeError::Invalid)
            }
        },
        14 => match deserializer.read_char() {
            Ok(c) => Ok(Key::Char(c)),
            Err(e) => Err(e),
        },
        15 => match deserializer.read_char() {
            Ok(c) => Ok(Key::Ctrl(c)),
            Err(e) => Err(e),
        },
        16 => match deserializer.read_char() {
            Ok(c) => Ok(Key::Alt(c)),
            Err(e) => Err(e),
        },
        17 => Ok(Key::Esc),
        _ => Err(DeserializeError::Invalid),
    }
}

fn serialize_opt_handle(h: &Option<ClientHandle>, serializer: &mut SerializationBuf)
    ensures
        final(serializer)@ == old(serializer)@ + spec_ser_opt_handle(*h),
{
    match h {
        None => serializer.write_u8(0),
        Some(handle) => {
            serializer.write_u8(1);
            serializer.write_u32(handle.index);
            proof {
                assert(final(serializer)@ =~= old(serializer)@ + spec_ser_opt_handle(*h));
            }
        },
    }
}

fn deserialize_opt_handle(deserializer: &mut DeserializationSlice) -> (r: Result<
    Option<ClientHandle>,
    DeserializeError,
>)
    requires
        old(deserializer).wf(),
    ensures
        final(deserializer).wf(),
        final(deserializer).spec_data() == old(deserializer).spec_data(),
        ({
            let sr = spec_read_opt_handle(
                old(deserializer).spec_data(),
                old(deserializer).spec_pos(),
            );
            match r {
                Ok(h) => sr is Ok && sr->Ok_0.0 == h && final(deserializer).spec_pos()
                    == sr->Ok_0.1,
                Err(e) => sr == Err::<(Option<ClientHandle>, int), DeserializeError>(e),
            }
        }),
{
    let tag = match deserializer.read_u8() {
        Ok(d) => d,
        Err(e) => {
            return Err(e);
        },
    };
    match tag {
        0 => Ok(None),
        1 => match deserializer.read_u32() {
            Ok(v) => Ok(Some(ClientHandle { index: v })),
            Err(e) => Err(e),
        },
        _ => Err(DeserializeError::Invalid),
    }
}

impl ClientEvent {
    /// Writes this event in the wire format.
    pub fn serialize(&self, serializer: &mut SerializationBuf)
        requires
            client_event_wf(self@),
        ensures
            final(serializer)@ == old(serializer)@ + spec_ser_event(self@),
    {
        match self {
            ClientEvent::Key(handle, key) => {
                serializer.write_u8(0);
                serialize_opt_handle(handle, serializer);
                serialize_key(*key, serializer);
                proof {
                    assert(final(serializer)@ =~= old(serializer)@ + spec_ser_event(self@));
                }
            },
            ClientEvent::Resize(handle, width, height) => {
                serializer.write_u8(1);
                serialize_opt_handle(handle, serializer);
                serializer.write_u16(*width);
                serializer.write_u16(*height);
                proof {
                    assert(final(serializer)@ =~= old(serializer)@ + spec_ser_event(self@));
                }
            },
            ClientEvent::Command(handle, command) => {
                serializer.write_u8(2);
                serialize_opt_handle(handle, serializer);
                serializer.write_str(command.as_str());
                proof {
                    assert(final(serializer)@ =~= old(serializer)@ + spec_ser_event(self@));
                }
            },
        }
    }

    /// Reads one event back in the wire format. On failure the cursor is
    /// left where it was, so more bytes can be awaited.
    pub fn deserialize(deserializer: &mut DeserializationSlice) -> (r: Result<
        ClientEvent,
        DeserializeError,
    >)
        requires
            old(deserializer).wf(),
        ensures
            final(deserializer).wf(),
            final(deserializer).spec_data() == old(deserializer).spec_data(),
            ({
                let sr = spec_read_event(
                    old(deserializer).spec_data(),
                    old(deserializer).spec_pos(),
                );
                match r {
                    Ok(e) => sr is Ok && sr->Ok_0.0 == e@ && final(deserializer).spec_pos()
                        == sr->Ok_0.1,
                    Err(e) => sr == Err::<(ClientEventV, int), DeserializeError>(e)
                        && final(deserializer).spec_pos() == old(deserializer).spec_pos(),
                }
            }),
    {
        let saved = deserializer.position();
        let r = Self::deserialize_inner(deserializer);
        match r {
            Ok(e) => Ok(e),
            Err(e) => {
                deserializer.set_position(saved);
                Err(e)
            },
        }
    }

    fn deserialize_inner(deserializer: &mut DeserializationSlice) -> (r: Result<
        ClientEvent,
        DeserializeError,
    >)
        requires
            old(deserializer).wf(),
        ensures
            final(deserializer).wf(),
            final(deserializer).spec_data() == old(deserializer).spec_data(),
            ({
                let sr = spec_read_event(
                    old(deserializer).spec_data(),
                    old(deserializer).spec_pos(),
                );
                match r {
                    Ok(e) => sr is Ok && sr->Ok_0.0 == e@ && final(deserializer).spec_pos()
                        == sr->Ok_0.1,
                    Err(e) => sr == Err::<(ClientEventV, int), DeserializeError>(e),
                }
            }),
    {
        let discriminant = match deserializer.read_u8() {
            Ok(d) => d,
            Err(e) => {
                return Err(e);
            },
        };
        match discriminant {
            0 => {
                let handle = match deserialize_opt_handle(deserializer) {
                    Ok(h) => h,
                    Err(e) => {
                        return Err(e);
                    },
                };
                match deserialize_key(deserializer) {
                    Ok(key) => Ok(ClientEvent::Key(handle, key)),
                    Err(e) => Err(e),
                }
            },
            1 => {
                let handle = match deserialize_opt_handle(deserializer) {
                    Ok(h) => h,
                    Err(e) => {
                        return Err(e);
                    },
                };
                let width = match deserializer.read_u16() {
                    Ok(w) => w,
                    Err(e) => {
                        return Err(e);
                    },
                };
                let height = match deserializer.read_u16() {
                    Ok(h) => h,
                    Err(e) => {
                        return Err(e);
                    },
                };
                Ok(ClientEvent::Resize(handle, width, height))
            },
            2 => {
                let handle = match deserialize_opt_handle(deserializer) {
                    Ok(h) => h,
                    Err(e) => {
                        return Err(e);
                    },
                };
                match deserializer.read_str() {
                    Ok(command) => Ok(ClientEvent::Command(handle, command)),
                    Err(e) => Err(e),
                }
            },
            _ => Err(DeserializeError::Invalid),
        }
    }
}

/// Reading a key back from where the buffer holds its encoding.
pub proof fn lemma_read_ser_key(b: Seq<u8>, i: int, k: Key)
    requires
        key_wf(k),
        0 <= i,
        i + spec_ser_key(k).len() <= b.len(),
        b.subrange(i, i + spec_ser_key(k).len()) =~= spec_ser_key(k),
    ensures
        spec_read_key(b, i) == Ok::<(Key, int), DeserializeError>(
            (k, i + spec_ser_key(k).len()),
        ),
{
    let enc = spec_ser_key(k);
    assert(b[i] == enc[0]) by {
        assert(b.subrange(i, i + enc.len())[0] == enc[0]);
    }
    match k {
        Key::F(n) => {
            assert forall|q: int| 0 <= q < 4 implies #[trigger] b.subrange(i + 1, i + 5)[q] == spec_ser_u32(
                n as u32,
            )[q] by {
                assert(enc[1 + q] == spec_ser_u32(n as u32)[q]);
                assert(b.subrange(i, i + enc.len())[1 + q] == enc[1 + q]);
            }
            assert(b.subrange(i + 1, i + 5) =~= spec_ser_u32(n as u32));
            crate::serialization::lemma_read_ser_u32(b, i + 1, n as u32);
        },
        Key::Char(c) => {
            assert forall|q: int| 0 <= q < 4 implies #[trigger] b.subrange(i + 1, i + 5)[q] == spec_ser_char(
                c,
            )[q] by {
                assert(enc[1 + q] == spec_ser_char(c)[q]);
                assert(b.subrange(i, i + enc.len())[1 + q] == enc[1 + q]);
            }
            assert(b.subrange(i + 1, i + 5) =~= spec_ser_char(c));
            crate::serialization::lemma_read_ser_char(b, i + 1, c);
        },
        Key::Ctrl(c) => {
            assert forall|q: int| 0 <= q < 4 implies #[trigger] b.subrange(i + 1, i + 5)[q] == spec_ser_char(
                c,
            )[q] by {
                assert(enc[1 + q] == spec_ser_char(c)[q]);
                assert(b.subrange(i, i + enc.len())[1 + q] == enc[1 + q]);
            }
            assert(b.subrange(i + 1, i + 5) =~= spec_ser_char(c));
            crate::serialization::lemma_read_ser_char(b, i + 1, c);
        },
        Key::Alt(c) => {
            assert forall|q: int| 0 <= q < 4 implies #[trigger] b.subrange(i + 1, i + 5)[q] == spec_ser_char(
                c,
            )[q] by {
                assert(enc[1 + q] == spec_ser_char(c)[q]);
                assert(b.subrange(i, i + enc.len())[1 + q] == enc[1 + q]);
            }
            assert(b.subrange(i + 1, i + 5) =~= spec_ser_char(c));
            crate::serialization::lemma_read_ser_char(b, i + 1, c);
        },
        _ => {},
    }
}

/// Key round-trip: every key the protocol enumerates deserializes from its
/// own serialization back to itself, consuming exactly its encoding.
pub proof fn lemma_key_round_trip(k: Key)
    requires
        key_wf(k),
    ensures
        spec_read_key(spec_ser_key(k), 0) == Ok::<(Key, int), DeserializeError>(
            (k, spec_ser_key(k).len() as int),
        ),
{
    assert(spec_ser_key(k).subrange(0, spec_ser_key(k).len() as int) =~= spec_ser_key(k));
    lemma_read_ser_key(spec_ser_key(k), 0, k);
}

/// Reading an optional handle back from where the buffer holds its encoding.
proof fn lemma_read_ser_opt_handle(b: Seq<u8>, i: int, h: Option<ClientHandle>)
    requires
        0 <= i,
        i + spec_ser_opt_handle(h).len() <= b.len(),
        b.subrange(i, i + spec_ser_opt_handle(h).len()) =~= spec_ser_opt_handle(h),
    ensures
        spec_read_opt_handle(b, i) == Ok::<(Option<ClientHandle>, int), DeserializeError>(
            (h, i + spec_ser_opt_handle(h).len()),
        ),
{
    let enc = spec_ser_opt_handle(h);
    assert(b[i] == enc[0]) by {
        assert(b.subrange(i, i + enc.len())[0] == enc[0]);
    }
    match h {
        None => {},
        Some(handle) => {
            assert forall|q: int| 0 <= q < 4 implies #[trigger] b.subrange(i + 1, i + 5)[q] == spec_ser_u32(
                handle.index,
            )[q] by {
                assert(enc[1 + q] == spec_ser_u32(handle.index)[q]);
                assert(b.subrange(i, i + enc.len())[1 + q] == enc[1 + q]);
            }
            assert(b.subrange(i + 1, i + 5) =~= spec_ser_u32(handle.index));
            crate::serialization::lemma_read_ser_u32(b, i + 1, handle.index);
        },
    }
}

/// Reading an event back from where the buffer holds its encoding.
pub proof fn lemma_read_ser_event(b: Seq<u8>, i: int, e: ClientEventV)
    requires
        client_event_wf(e),
        0 <= i,
        i + spec_ser_event(e).len() <= b.len(),
        b.subrange(i, i + spec_ser_event(e).len()) =~= spec_ser_event(e),
    ensures
        spec_read_event(b, i) == Ok::<(ClientEventV, int), DeserializeError>(
            (e, i + spec_ser_event(e).len()),
        ),
{
    let enc = spec_ser_event(e);
    assert forall|q: int| 0 <= q < enc.len() implies #[trigger] b[i + q] == enc[q] by {
        assert(b.subrange(i, i + enc.len())[q] == enc[q]);
    }
    match e {
        ClientEventV::Key(h, k) => {
            let o = spec_ser_opt_handle(h);
            let kk = spec_ser_key(k);
            assert(b[i] == enc[0]);
            assert forall|q: int| 0 <= q < o.len() implies #[trigger] b.subrange(i + 1, i + 1 + o.len())[q]
                == o[q] by {
                assert((spec_ser_u8(0) + o)[1 + q] == o[q]);
                assert(enc[1 + q] == (spec_ser_u8(0) + o)[1 + q]);
                assert(b[i + 1 + q] == enc[1 + q]);
            }
            assert(b.subrange(i + 1, i + 1 + o.len()) =~= o);
            lemma_read_ser_opt_handle(b, i + 1, h);
            let j2 = i + 1 + o.len();
            assert forall|q: int| 0 <= q < kk.len() implies #[trigger] b.subrange(j2, j2 + kk.len())[q]
                == kk[q] by {
                assert(enc[1 + o.len() + q] == kk[q]);
                assert(b[i + (1 + o.len() + q)] == enc[1 + o.len() + q]);
            }
            assert(b.subrange(j2, j2 + kk.len()) =~= kk);
            lemma_read_ser_key(b, j2, k);
        },
        ClientEventV::Resize(h, w, ht) => {
            let o = spec_ser_opt_handle(h);
            let w2 = spec_ser_u16(w);
            let h2 = spec_ser_u16(ht);
            assert(b[i] == enc[0]);
            assert forall|q: int| 0 <= q < o.len() implies #[trigger] b.subrange(i + 1, i + 1 + o.len())[q]
                == o[q] by {
                assert(((spec_ser_u8(1) + o) + w2)[1 + q] == o[q]);
                assert(enc[1 + q] == ((spec_ser_u8(1) + o) + w2)[1 + q]);
                assert(b[i + (1 + q)] == enc[1 + q]);
            }
            assert(b.subrange(i + 1, i + 1 + o.len()) =~= o);
            lemma_read_ser_opt_handle(b, i + 1, h);
            let j2 = i + 1 + o.len();
            assert forall|q: int| 0 <= q < 2 implies #[trigger] b.subrange(j2, j2 + 2)[q] == w2[q] by {
                assert(((spec_ser_u8(1) + o) + w2)[1 + o.len() + q] == w2[q]);
                assert(enc[1 + o.len() + q] == ((spec_ser_u8(1) + o) + w2)[1 + o.len() + q]);
                assert(b[i + (1 + o.len() + q)] == enc[1 + o.len() + q]);
            }
            assert(b.subrange(j2, j2 + 2) =~= w2);
            crate::serialization::lemma_read_ser_u16(b, j2, w);
            assert forall|q: int| 0 <= q < 2 implies #[trigger] b.subrange(j2 + 2, j2 + 4)[q] == h2[q] by {
                assert(enc[1 + o.len() + 2 + q] == h2[q]);
                assert(b[i + (1 + o.len() + 2 + q)] == enc[1 + o.len() + 2 + q]);
            }
            assert(b.subrange(j2 + 2, j2 + 4) =~= h2);
            crate::serialization::lemma_read_ser_u16(b, j2 + 2, ht);
        },
        ClientEventV::Command(h, s) => {
            let o = spec_ser_opt_handle(h);
            let ss = spec_ser_str(s);
            assert(b[i] == enc[0]);
            assert forall|q: int| 0 <= q < o.len() implies #[trigger] b.subrange(i + 1, i + 1 + o.len())[q]
                == o[q] by {
                assert((spec_ser_u8(2) + o)[1 + q] == o[q]);
                assert(enc[1 + q] == (spec_ser_u8(2) + o)[1 + q]);
                assert(b[i + (1 + q)] == enc[1 + q]);
            }
            assert(b.subrange(i + 1, i + 1 + o.len()) =~= o);
            lemma_read_ser_opt_handle(b, i + 1, h);
            let j2 = i + 1 + o.len();
            assert forall|q: int| 0 <= q < ss.len() implies #[trigger] b.subrange(j2, j2 + ss.len())[q]
                == ss[q] by {
                assert(enc[1 + o.len() + q] == ss[q]);
                assert(b[i + (1 + o.len() + q)] == enc[1 + o.len() + q]);
            }
            assert(b.subrange(j2, j2 + ss.len()) =~= ss);
            crate::serialization::lemma_read_ser_str(b, j2, s);
        },
    }
}

/// its own serialization back to itself, consuming exactly its encoding.
pub proof fn lemma_event_round_trip(e: ClientEventV)
    requires
        client_event_wf(e),
    ensures
        spec_read_event(spec_ser_event(e), 0) == Ok::<(ClientEventV, int), DeserializeError>(
            (e, spec_ser_event(e).len() as int),
        ),
{
    assert(spec_ser_event(e).subrange(0, spec_ser_event(e).len() as int) =~= spec_ser_event(e));
    lemma_read_ser_event(spec_ser_event(e), 0, e);
}

/// A key's read is incomplete, not invalid, on every strict prefix of its
/// encoding.
proof fn lemma_read_key_prefix(b: Seq<u8>, i: int, k: Key)
    requires
        0 <= i <= b.len(),
        b.len() - i < spec_ser_key(k).len(),
        b.subrange(i, b.len() as int) =~= spec_ser_key(k).take(b.len() - i),
    ensures
        spec_read_key(b, i) == Err::<(Key, int), DeserializeError>(DeserializeError::Incomplete),
{
    let enc = spec_ser_key(k);
    let avail = b.len() - i;
    assert forall|q: int| 0 <= q < avail implies #[trigger] b[i + q] == enc[q] by {
        assert(b.subrange(i, b.len() as int)[q] == enc.take(avail)[q]);
    }
    if avail > 0 {
        assert(b[i + 0] == enc[0]);
    }
}

/// An optional handle's read is incomplete on every strict prefix of its
/// encoding.
proof fn lemma_read_opt_handle_prefix(b: Seq<u8>, i: int, h: Option<ClientHandle>)
    requires
        0 <= i <= b.len(),
        b.len() - i < spec_ser_opt_handle(h).len(),
        b.subrange(i, b.len() as int) =~= spec_ser_opt_handle(h).take(b.len() - i),
    ensures
        spec_read_opt_handle(b, i) == Err::<(Option<ClientHandle>, int), DeserializeError>(
            DeserializeError::Incomplete,
        ),
{
    let enc = spec_ser_opt_handle(h);
    let avail = b.len() - i;
    assert forall|q: int| 0 <= q < avail implies #[trigger] b[i + q] == enc[q] by {
        assert(b.subrange(i, b.len() as int)[q] == enc.take(avail)[q]);
    }
    if avail > 0 {
        assert(b[i + 0] == enc[0]);
    }
}

/// A string's read is incomplete on every strict prefix of its encoding.
proof fn lemma_read_str_prefix(b: Seq<u8>, i: int, s: Seq<char>)
    requires
        0 <= i <= b.len(),
        vstd::utf8::encode_utf8(s).len() <= u32::MAX,
        b.len() - i < spec_ser_str(s).len(),
        b.subrange(i, b.len() as int) =~= spec_ser_str(s).take(b.len() - i),
    ensures
        spec_read_str(b, i) == Err::<(Seq<char>, int), DeserializeError>(
            DeserializeError::Incomplete,
        ),
{
    let enc = spec_ser_str(s);
    let avail = b.len() - i;
    let m = vstd::utf8::encode_utf8(s).len() as int;
    let lenenc = crate::serialization::spec_ser_u32(m as u32);
    assert forall|q: int| 0 <= q < avail implies #[trigger] b[i + q] == enc[q] by {
        assert(b.subrange(i, b.len() as int)[q] == enc.take(avail)[q]);
    }
    if avail >= 4 {
        assert forall|q: int| 0 <= q < 4 implies #[trigger] b.subrange(i, i + 4)[q]
            == lenenc[q] by {
            assert(enc[q] == lenenc[q]);
            assert(b[i + q] == enc[q]);
        }
        assert(b.subrange(i, i + 4) =~= lenenc);
        crate::serialization::lemma_read_ser_u32(b, i, m as u32);
    }
}

/// An event's read is incomplete, never invalid, on every strict prefix of
/// its encoding: the reader waits for the rest of the record.
proof fn lemma_read_event_prefix(b: Seq<u8>, i: int, e: ClientEventV)
    requires
        client_event_wf(e),
        0 <= i <= b.len(),
        b.len() - i < spec_ser_event(e).len(),
        b.subrange(i, b.len() as int) =~= spec_ser_event(e).take(b.len() - i),
    ensures
        spec_read_event(b, i) == Err::<(ClientEventV, int), DeserializeError>(
            DeserializeError::Incomplete,
        ),
{
    let enc = spec_ser_event(e);
    let avail = b.len() - i;
    assert forall|q: int| 0 <= q < avail implies #[trigger] b[i + q] == enc[q] by {
        assert(b.subrange(i, b.len() as int)[q] == enc.take(avail)[q]);
    }
    if avail == 0 {
        return ;
    }
    assert(b[i + 0] == enc[0]);
    match e {
        ClientEventV::Key(h, k) => {
            let o = spec_ser_opt_handle(h);
            let kk = spec_ser_key(k);
            assert forall|q: int| 0 <= q < avail - 1 implies #[trigger] b.subrange(
                i + 1,
                b.len() as int,
            )[q] == ((spec_ser_u8(0) + o) + kk).take(avail)[1 + q] by {
                assert(b[i + (1 + q)] == enc[1 + q]);
            }
            if avail - 1 < o.len() {
                assert(b.subrange(i + 1, b.len() as int) =~= o.take(avail - 1)) by {
                    assert forall|q: int| 0 <= q < avail - 1 implies #[trigger] b.subrange(
                        i + 1,
                        b.len() as int,
                    )[q] == o.take(avail - 1)[q] by {
                        assert(b[i + (1 + q)] == enc[1 + q]);
                        assert((spec_ser_u8(0) + o)[1 + q] == o[q]);
                        assert(enc[1 + q] == (spec_ser_u8(0) + o)[1 + q]);
                    }
                }
                lemma_read_opt_handle_prefix(b, i + 1, h);
            } else {
                assert forall|q: int| 0 <= q < o.len() implies #[trigger] b.subrange(
                    i + 1,
                    i + 1 + o.len(),
                )[q] == o[q] by {
                    assert(b[i + (1 + q)] == enc[1 + q]);
                    assert((spec_ser_u8(0) + o)[1 + q] == o[q]);
                    assert(enc[1 + q] == (spec_ser_u8(0) + o)[1 + q]);
                }
                assert(b.subrange(i + 1, i + 1 + o.len()) =~= o);
                lemma_read_ser_opt_handle(b, i + 1, h);
                let j2 = i + 1 + o.len();
                assert(b.len() - j2 < kk.len());
                assert forall|q: int| 0 <= q < b.len() - j2 implies #[trigger] b.subrange(
                    j2,
                    b.len() as int,
                )[q] == kk.take(b.len() - j2)[q] by {
                    assert(b[i + (1 + o.len() + q)] == enc[1 + o.len() + q]);
                    assert(enc[1 + o.len() + q] == kk[q]);
                }
                assert(b.subrange(j2, b.len() as int) =~= kk.take(b.len() - j2));
                lemma_read_key_prefix(b, j2, k);
            }
        },
        ClientEventV::Resize(h, w, ht) => {
            let o = spec_ser_opt_handle(h);
            let w2 = spec_ser_u16(w);
            let h2 = spec_ser_u16(ht);
            if avail - 1 < o.len() {
                assert(b.subrange(i + 1, b.len() as int) =~= o.take(avail - 1)) by {
                    assert forall|q: int| 0 <= q < avail - 1 implies #[trigger] b.subrange(
                        i + 1,
                        b.len() as int,
                    )[q] == o.take(avail - 1)[q] by {
                        assert(b[i + (1 + q)] == enc[1 + q]);
                        assert(((spec_ser_u8(1) + o) + w2)[1 + q] == o[q]);
                        assert(enc[1 + q] == ((spec_ser_u8(1) + o) + w2)[1 + q]);
                    }
                }
                lemma_read_opt_handle_prefix(b, i + 1, h);
            } else {
                assert forall|q: int| 0 <= q < o.len() implies #[trigger] b.subrange(
                    i + 1,
                    i + 1 + o.len(),
                )[q] == o[q] by {
                    assert(b[i + (1 + q)] == enc[1 + q]);
                    assert(((spec_ser_u8(1) + o) + w2)[1 + q] == o[q]);
                    assert(enc[1 + q] == ((spec_ser_u8(1) + o) + w2)[1 + q]);
                }
                assert(b.subrange(i + 1, i + 1 + o.len()) =~= o);
                lemma_read_ser_opt_handle(b, i + 1, h);
                let j2 = i + 1 + o.len();
                if b.len() - j2 >= 2 {
                    assert forall|q: int| 0 <= q < 2 implies #[trigger] b.subrange(j2, j2 + 2)[q]
                        == w2[q] by {
                        assert(b[i + (1 + o.len() + q)] == enc[1 + o.len() + q]);
                        assert(((spec_ser_u8(1) + o) + w2)[1 + o.len() + q] == w2[q]);
                        assert(enc[1 + o.len() + q] == ((spec_ser_u8(1) + o) + w2)[1 + o.len()
                            + q]);
                    }
                    assert(b.subrange(j2, j2 + 2) =~= w2);
                    crate::serialization::lemma_read_ser_u16(b, j2, w);
                    assert(b.len() - (j2 + 2) < 2);
                }
            }
        },
        ClientEventV::Command(h, s) => {
            let o = spec_ser_opt_handle(h);
            let ss = spec_ser_str(s);
            if avail - 1 < o.len() {
                assert(b.subrange(i + 1, b.len() as int) =~= o.take(avail - 1)) by {
                    assert forall|q: int| 0 <= q < avail - 1 implies #[trigger] b.subrange(
                        i + 1,
                        b.len() as int,
                    )[q] == o.take(avail - 1)[q] by {
                        assert(b[i + (1 + q)] == enc[1 + q]);
                        assert((spec_ser_u8(2) + o)[1 + q] == o[q]);
                        assert(enc[1 + q] == (spec_ser_u8(2) + o)[1 + q]);
                    }
                }
                lemma_read_opt_handle_prefix(b, i + 1, h);
            } else {
                assert forall|q: int| 0 <= q < o.len() implies #[trigger] b.subrange(
                    i + 1,
                    i + 1 + o.len(),
                )[q] == o[q] by {
                    assert(b[i + (1 + q)] == enc[1 + q]);
                    assert((spec_ser_u8(2) + o)[1 + q] == o[q]);
                    assert(enc[1 + q] == (spec_ser_u8(2) + o)[1 + q]);
                }
                assert(b.subrange(i + 1, i + 1 + o.len()) =~= o);
                lemma_read_ser_opt_handle(b, i + 1, h);
                let j2 = i + 1 + o.len();
                assert(b.len() - j2 < ss.len());
                assert forall|q: int| 0 <= q < b.len() - j2 implies #[trigger] b.subrange(
                    j2,
                    b.len() as int,
                )[q] == ss.take(b.len() - j2)[q] by {
                    assert(b[i + (1 + o.len() + q)] == enc[1 + o.len() + q]);
                    assert(enc[1 + o.len() + q] == ss[q]);
                }
                assert(b.subrange(j2, b.len() as int) =~= ss.take(b.len() - j2));
                lemma_read_str_prefix(b, j2, s);
            }
        },
    }
}

/// The wire form of a sequence of events: their encodings, one after the
/// other, with no other framing.
pub open spec fn spec_stream(es: Seq<ClientEventV>) -> Seq<u8>
    decreases es.len(),
{
    if es.len() == 0 {
        Seq::empty()
    } else {
        spec_ser_event(es[0]) + spec_stream(es.drop_first())
    }
}

pub open spec fn all_events_wf(es: Seq<ClientEventV>) -> bool {
    forall|i: int| 0 <= i < es.len() ==> client_event_wf(#[trigger] es[i])
}

/// Greedy decoding of the bytes at hand: the events read until the buffer
/// runs out mid-record (or holds garbage), and the bytes left over.
pub open spec fn spec_drain(b: Seq<u8>) -> (Seq<ClientEventV>, Seq<u8>)
    decreases b.len(),
{
    match spec_read_event(b, 0) {
        Ok((e, j)) => if 1 <= j <= b.len() {
            let rest = spec_drain(b.skip(j));
            (seq![e] + rest.0, rest.1)
        } else {
            (Seq::empty(), b)
        },
        Err(_) => (Seq::empty(), b),
    }
}

proof fn lemma_ser_event_len(e: ClientEventV)
    ensures
        spec_ser_event(e).len() >= 2,
{
    match e {
        ClientEventV::Key(h, k) => {},
        ClientEventV::Resize(h, w, ht) => {},
        ClientEventV::Command(h, s) => {},
    }
}

/// Draining a whole stream followed by an undecodable tail yields exactly
/// the stream's events and leaves the tail.
#[verifier::rlimit(100)]
proof fn lemma_drain_stream_with_tail(es: Seq<ClientEventV>, p: Seq<u8>)
    requires
        all_events_wf(es),
        spec_read_event(p, 0) is Err,
    ensures
        spec_drain(spec_stream(es) + p) == (es, p),
    decreases es.len(),
{
    if es.len() == 0 {
        assert(spec_stream(es) + p =~= p);
        assert(es =~= Seq::<ClientEventV>::empty());
    } else {
        let e0 = es[0];
        let rest = es.drop_first();
        let enc = spec_ser_event(e0);
        let b = spec_stream(es) + p;
        assert(b =~= enc + (spec_stream(rest) + p));
        assert(b.subrange(0, enc.len() as int) =~= enc);
        assert(client_event_wf(e0));
        lemma_read_ser_event(b, 0, e0);
        lemma_ser_event_len(e0);
        assert(b.skip(enc.len() as int) =~= spec_stream(rest) + p);
        assert(all_events_wf(rest)) by {
            assert(forall|i: int|
                0 <= i < rest.len() ==> client_event_wf(#[trigger] rest[i]) && rest[i] == es[i
                    + 1]);
        }
        lemma_drain_stream_with_tail(rest, p);
        assert(seq![e0] + rest =~= es);
    }
}

/// Framing resilience: split the wire form of any event sequence at any
/// byte position, feed the first half to the reader and drain it, keep the
/// undecoded tail, then feed the second half and drain again. The two
/// drains together yield exactly the original events, with nothing left.
#[verifier::rlimit(100)]
pub proof fn lemma_framing_resilience(es: Seq<ClientEventV>, cut: int)
    requires
        all_events_wf(es),
        0 <= cut <= spec_stream(es).len(),
    ensures
        ({
            let s = spec_stream(es);
            let first = spec_drain(s.take(cut));
            let second = spec_drain(first.1 + s.skip(cut));
            first.0 + second.0 == es && second.1 == Seq::<u8>::empty()
        }),
    decreases es.len(),
{
    let s = spec_stream(es);
    if es.len() == 0 {
        assert(s.take(cut) =~= Seq::<u8>::empty());
        assert(spec_read_u8(Seq::<u8>::empty(), 0) is Err);
        let first = spec_drain(s.take(cut));
        assert(first.1 + s.skip(cut) =~= Seq::<u8>::empty());
        assert(first.0 + spec_drain(first.1 + s.skip(cut)).0 =~= es);
    } else {
        let e0 = es[0];
        let rest = es.drop_first();
        let enc = spec_ser_event(e0);
        let s2 = spec_stream(rest);
        assert(client_event_wf(e0));
        assert(all_events_wf(rest)) by {
            assert(forall|i: int|
                0 <= i < rest.len() ==> client_event_wf(#[trigger] rest[i]) && rest[i] == es[i
                    + 1]);
        }
        lemma_ser_event_len(e0);
        if cut < enc.len() {
            let b1 = s.take(cut);
            assert(b1 =~= enc.take(cut));
            assert(b1.subrange(0, b1.len() as int) =~= enc.take(b1.len() - 0));
            lemma_read_event_prefix(b1, 0, e0);
            let first = spec_drain(b1);
            assert(first == (Seq::<ClientEventV>::empty(), b1));
            assert(first.1 + s.skip(cut) =~= s);
            assert(spec_read_u8(Seq::<u8>::empty(), 0) is Err);
            assert(s =~= spec_stream(es) + Seq::<u8>::empty());
            lemma_drain_stream_with_tail(es, Seq::<u8>::empty());
            let second = spec_drain(first.1 + s.skip(cut));
            assert(second == (es, Seq::<u8>::empty()));
            assert(first.0 + second.0 =~= es);
        } else {
            lemma_framing_resilience(rest, cut - enc.len());
            let b1 = s.take(cut);
            assert(b1 =~= enc + s2.take(cut - enc.len()));
            assert(b1.subrange(0, enc.len() as int) =~= enc);
            lemma_read_ser_event(b1, 0, e0);
            assert(b1.skip(enc.len() as int) =~= s2.take(cut - enc.len()));
            let firstrec = spec_drain(s2.take(cut - enc.len()));
            let first = spec_drain(b1);
            assert(first == (seq![e0] + firstrec.0, firstrec.1));
            assert(s.skip(cut) =~= s2.skip(cut - enc.len()));
            let second = spec_drain(first.1 + s.skip(cut));
            assert(second == spec_drain(firstrec.1 + s2.skip(cut - enc.len())));
            assert(first.0 + second.0 =~= seq![e0] + (firstrec.0 + second.0));
            assert(seq![e0] + (firstrec.0 + second.0) =~= es);
        }
    }
}

/// The outcome of one poll of the incremental reader: a decoded event, a
/// record still incomplete (wait for more bytes), or bytes that can never
/// form a record (the peer is broken).
pub enum ClientEventPoll {
    Event(ClientEvent),
    NeedMoreBytes,
    Corrupted,
}

/// Decodes the next complete event from the read buffer, consuming exactly
/// its encoding; an incomplete record is left in place for a later read to
/// finish.
pub fn poll_client_event(buf: &mut ReadBuf) -> (r: ClientEventPoll)
    requires
        old(buf).wf(),
    ensures
        final(buf).wf(),
        final(buf).spec_content() == old(buf).spec_content(),
        ({
            let sr = spec_read_event(old(buf).spec_remaining(), 0);
            match r {
                ClientEventPoll::Event(e) => sr is Ok && sr->Ok_0.0 == e@ && final(buf).spec_pos()
                    == old(buf).spec_pos() + sr->Ok_0.1,
                ClientEventPoll::NeedMoreBytes => sr == Err::<(ClientEventV, int),
                    DeserializeError,
                >(DeserializeError::Incomplete) && final(buf).spec_pos() == old(buf).spec_pos(),
                ClientEventPoll::Corrupted => sr == Err::<(ClientEventV, int), DeserializeError>(
                    DeserializeError::Invalid,
                ) && final(buf).spec_pos() == old(buf).spec_pos(),
            }
        }),
{
    let mut deserializer = DeserializationSlice::from_slice(buf.as_bytes());
    match ClientEvent::deserialize(&mut deserializer) {
        Ok(event) => {
            let n = deserializer.position();
            proof {
                assert(n <= deserializer.spec_data().len());
                assert(deserializer.spec_data().len() == old(buf).spec_remaining().len());
                assert(old(buf).spec_content().subrange(
                    old(buf).spec_pos(),
                    old(buf).spec_content().len() as int,
                ).len() == old(buf).spec_content().len() - old(buf).spec_pos());
                assert(old(buf).spec_remaining().len() == old(buf).spec_content().len() - old(
                    buf,
                ).spec_pos());
                assert(old(buf).spec_pos() + n <= old(buf).spec_content().len());
                assert(buf.spec_pos() == old(buf).spec_pos());
                assert(buf.spec_content() == old(buf).spec_content());
            }
            buf.advance(n);
            ClientEventPoll::Event(event)
        },
        Err(DeserializeError::Incomplete) => ClientEventPoll::NeedMoreBytes,
        Err(DeserializeError::Invalid) => ClientEventPoll::Corrupted,
    }
}

} // verus!
