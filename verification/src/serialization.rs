//! Binary serialization: little-endian fixed-width integers, `char` as its
//! 4-byte scalar, byte slices and strings as a `u32` length prefix followed
//! by the bytes, and `Option` as a one-byte tag.

use vstd::prelude::*;
use vstd::slice::{slice_subrange, slice_to_vec};
use vstd::string::StringSliceAdditionalSpecFns;
use vstd::utf8::{decode_utf8, valid_utf8};

verus! {

/// Why a value could not be read back: the buffer ends before the value
/// does, or the bytes present do not form one.
#[derive(Debug, Clone, Copy, PartialEq, Eq, Structural)]
pub enum DeserializeError {
    Incomplete,
    Invalid,
}

pub open spec fn spec_ser_u8(v: u8) -> Seq<u8> {
    seq![v]
}

pub open spec fn spec_ser_u16(v: u16) -> Seq<u8> {
    seq![(v & 0xff) as u8, ((v >> 8) & 0xff) as u8]
}

pub open spec fn spec_ser_u32(v: u32) -> Seq<u8> {
    seq![
        (v & 0xff) as u8,
        ((v >> 8) & 0xff) as u8,
        ((v >> 16) & 0xff) as u8,
        ((v >> 24) & 0xff) as u8,
    ]
}

pub open spec fn spec_ser_char(c: char) -> Seq<u8> {
    spec_ser_u32(c as u32)
}

/// A byte slice on the wire: its length, then its bytes.
pub open spec fn spec_ser_bytes(b: Seq<u8>) -> Seq<u8> {
    spec_ser_u32(b.len() as u32) + b
}

/// A string on the wire: its UTF-8 bytes, length-prefixed.
pub open spec fn spec_ser_str(s: Seq<char>) -> Seq<u8> {
    spec_ser_bytes(vstd::utf8::encode_utf8(s))
}

pub open spec fn spec_read_u8(b: Seq<u8>, i: int) -> Result<(u8, int), DeserializeError> {
    if 0 <= i && i + 1 <= b.len() {
        Ok((b[i], i + 1))
    } else {
        Err(DeserializeError::Incomplete)
    }
}

pub open spec fn spec_read_u16(b: Seq<u8>, i: int) -> Result<(u16, int), DeserializeError> {
    if 0 <= i && i + 2 <= b.len() {
        Ok(((b[i] as u16) | ((b[i + 1] as u16) << 8), i + 2))
    } else {
        Err(DeserializeError::Incomplete)
    }
}

pub open spec fn spec_read_u32(b: Seq<u8>, i: int) -> Result<(u32, int), DeserializeError> {
    if 0 <= i && i + 4 <= b.len() {
        Ok(
            (
                (b[i] as u32) | ((b[i + 1] as u32) << 8) | ((b[i + 2] as u32) << 16) | ((b[i
                    + 3] as u32) << 24),
                i + 4,
            ),
        )
    } else {
        Err(DeserializeError::Incomplete)
    }
}

pub open spec fn spec_read_char(b: Seq<u8>, i: int) -> Result<(char, int), DeserializeError> {
    match spec_read_u32(b, i) {
        Err(e) => Err(e),
        Ok((v, j)) => if vstd::utf8::is_scalar(v) {
            Ok((v as char, j))
        } else {
            Err(DeserializeError::Invalid)
        },
    }
}

pub open spec fn spec_read_bytes(b: Seq<u8>, i: int) -> Result<(Seq<u8>, int), DeserializeError> {
    match spec_read_u32(b, i) {
        Err(e) => Err(e),
        Ok((len, j)) => if j + len <= b.len() {
            Ok((b.subrange(j, j + len), j + len))
        } else {
            Err(DeserializeError::Incomplete)
        },
    }
}

pub open spec fn spec_read_str(b: Seq<u8>, i: int) -> Result<(Seq<char>, int), DeserializeError> {
    match spec_read_bytes(b, i) {
        Err(e) => Err(e),
        Ok((bytes, j)) => if valid_utf8(bytes) {
            Ok((decode_utf8(bytes), j))
        } else {
            Err(DeserializeError::Invalid)
        },
    }
}

/// A growing byte buffer that values are serialized into.
pub struct SerializationBuf {
    buf: Vec<u8>,
}

impl View for SerializationBuf {
    type V = Seq<u8>;

    closed spec fn view(&self) -> Seq<u8> {
        self.buf@
    }
}

impl Default for SerializationBuf {
    fn default() -> (r: Self)
        ensures
            r@ == Seq::<u8>::empty(),
    {
        SerializationBuf { buf: Vec::new() }
    }
}

impl SerializationBuf {
    pub fn new() -> (r: Self)
        ensures
            r@ == Seq::<u8>::empty(),
    {
        SerializationBuf { buf: Vec::new() }
    }

    pub fn as_slice(&self) -> (r: &[u8])
        ensures
            r@ == self@,
    {
        self.buf.as_slice()
    }

    pub fn is_empty(&self) -> (r: bool)
        ensures
            r == (self@.len() == 0),
    {
        self.buf.len() == 0
    }

    pub fn clear(&mut self)
        ensures
            final(self)@ == Seq::<u8>::empty(),
    {
        self.buf.clear();
    }

    pub fn write_u8(&mut self, v: u8)
        ensures
            final(self)@ == old(self)@ + spec_ser_u8(v),
    {
        self.buf.push(v);
        proof {
            assert(final(self)@ =~= old(self)@ + spec_ser_u8(v));
        }
    }

    pub fn write_u16(&mut self, v: u16)
        ensures
            final(self)@ == old(self)@ + spec_ser_u16(v),
    {
        self.buf.push((v & 0xff) as u8);
        self.buf.push(((v >> 8) & 0xff) as u8);
        proof {
            assert(final(self)@ =~= old(self)@ + spec_ser_u16(v));
        }
    }

    pub fn write_u32(&mut self, v: u32)
        ensures
            final(self)@ == old(self)@ + spec_ser_u32(v),
    {
        self.buf.push((v & 0xff) as u8);
        self.buf.push(((v >> 8) & 0xff) as u8);
        self.buf.push(((v >> 16) & 0xff) as u8);
        self.buf.push(((v >> 24) & 0xff) as u8);
        proof {
            assert(final(self)@ =~= old(self)@ + spec_ser_u32(v));
        }
    }

    pub fn write_char(&mut self, c: char)
        ensures
            final(self)@ == old(self)@ + spec_ser_char(c),
    {
        self.write_u32(c as u32);
    }

    pub fn write_bytes(&mut self, b: &[u8])
        requires
            b@.len() <= u32::MAX,
        ensures
            final(self)@ == old(self)@ + spec_ser_bytes(b@),
    {
        self.write_u32(b.len() as u32);
        self.buf.extend_from_slice(b);
        proof {
            assert(final(self)@ =~= old(self)@ + spec_ser_bytes(b@));
        }
    }

    pub fn write_str(&mut self, s: &str)
        requires
            s.spec_bytes().len() <= u32::MAX,
        ensures
            final(self)@ == old(self)@ + spec_ser_str(s@),
    {
        self.write_bytes(s.as_bytes());
    }
}

/// Relies on `String::from_utf8`: `Ok` exactly when the bytes are valid
/// UTF-8, and then the string whose encoding they are.
#[verifier::external_body]
fn vec_to_string(v: Vec<u8>) -> (r: Option<String>)
    ensures
        r is Some <==> valid_utf8(v@),
        r is Some ==> r->0@ == decode_utf8(v@),
{
    match String::from_utf8(v) {
        Ok(s) => Some(s),
        Err(_) => None,
    }
}

/// Relies on `char::from_u32`: `Some` exactly on Unicode scalar values,
/// and then the character with that value.
pub assume_specification[ char::from_u32 ](v: u32) -> (r: Option<char>)
    ensures
        r is Some <==> vstd::utf8::is_scalar(v),
        r is Some ==> r->0 as u32 == v,
;

/// A byte buffer that values are deserialized out of, front to back.
pub struct DeserializationSlice {
    data: Vec<u8>,
    pos: usize,
}

impl DeserializationSlice {
    pub closed spec fn spec_data(&self) -> Seq<u8> {
        self.data@
    }

    pub closed spec fn spec_pos(&self) -> int {
        self.pos as int
    }

    pub open spec fn wf(&self) -> bool {
        0 <= self.spec_pos() <= self.spec_data().len()
    }

    pub fn from_slice(d: &[u8]) -> (r: Self)
        ensures
            r.wf(),
            r.spec_data() == d@,
            r.spec_pos() == 0,
    {
        DeserializationSlice { data: slice_to_vec(d), pos: 0 }
    }

    /// The cursor: how many bytes have been consumed.
    pub fn position(&self) -> (r: usize)
        ensures
            r == self.spec_pos(),
    {
        self.pos
    }

    /// Moves the cursor, to rewind after a failed read.
    pub fn set_position(&mut self, p: usize)
        requires
            p <= old(self).spec_data().len(),
        ensures
            final(self).wf(),
            final(self).spec_data() == old(self).spec_data(),
            final(self).spec_pos() == p,
    {
        self.pos = p;
    }

    /// The bytes not yet consumed.
    pub fn as_slice(&self) -> (r: &[u8])
        requires
            self.wf(),
        ensures
            r@ == self.spec_data().subrange(self.spec_pos(), self.spec_data().len() as int),
    {
        slice_subrange(self.data.as_slice(), self.pos, self.data.len())
    }

    pub fn read_u8(&mut self) -> (r: Result<u8, DeserializeError>)
        requires
            old(self).wf(),
        ensures
            final(self).wf(),
            final(self).spec_data() == old(self).spec_data(),
            ({
                let sr = spec_read_u8(old(self).spec_data(), old(self).spec_pos());
                match r {
                    Ok(v) => sr is Ok && sr->Ok_0.0 == v && final(self).spec_pos() == sr->Ok_0.1,
                    Err(e) => sr == Err::<(u8, int), DeserializeError>(e) && final(self).spec_pos()
                        == old(self).spec_pos(),
                }
            }),
    {
        if self.pos < self.data.len() {
            let v = self.data[self.pos];
            self.pos = self.pos + 1;
            Ok(v)
        } else {
            Err(DeserializeError::Incomplete)
        }
    }

    pub fn read_u16(&mut self) -> (r: Result<u16, DeserializeError>)
        requires
            old(self).wf(),
        ensures
            final(self).wf(),
            final(self).spec_data() == old(self).spec_data(),
            ({
                let sr = spec_read_u16(old(self).spec_data(), old(self).spec_pos());
                match r {
                    Ok(v) => sr is Ok && sr->Ok_0.0 == v && final(self).spec_pos() == sr->Ok_0.1,
                    Err(e) => sr == Err::<(u16, int), DeserializeError>(e) && final(self).spec_pos()
                        == old(self).spec_pos(),
                }
            }),
    {
        if self.data.len() - self.pos >= 2 {
            let b0 = self.data[self.pos];
            let b1 = self.data[self.pos + 1];
            self.pos = self.pos + 2;
            Ok((b0 as u16) | ((b1 as u16) << 8))
        } else {
            Err(DeserializeError::Incomplete)
        }
    }

    pub fn read_u32(&mut self) -> (r: Result<u32, DeserializeError>)
        requires
            old(self).wf(),
        ensures
            final(self).wf(),
            final(self).spec_data() == old(self).spec_data(),
            ({
                let sr = spec_read_u32(old(self).spec_data(), old(self).spec_pos());
                match r {
                    Ok(v) => sr is Ok && sr->Ok_0.0 == v && final(self).spec_pos() == sr->Ok_0.1,
                    Err(e) => sr == Err::<(u32, int), DeserializeError>(e) && final(self).spec_pos()
                        == old(self).spec_pos(),
                }
            }),
    {
        if self.data.len() - self.pos >= 4 {
            let b0 = self.data[self.pos];
            let b1 = self.data[self.pos + 1];
            let b2 = self.data[self.pos + 2];
            let b3 = self.data[self.pos + 3];
            self.pos = self.pos + 4;
            Ok((b0 as u32) | ((b1 as u32) << 8) | ((b2 as u32) << 16) | ((b3 as u32) << 24))
        } else {
            Err(DeserializeError::Incomplete)
        }
    }

    pub fn read_char(&mut self) -> (r: Result<char, DeserializeError>)
        requires
            old(self).wf(),
        ensures
            final(self).wf(),
            final(self).spec_data() == old(self).spec_data(),
            ({
                let sr = spec_read_char(old(self).spec_data(), old(self).spec_pos());
                match r {
                    Ok(v) => sr is Ok && sr->Ok_0.0 == v && final(self).spec_pos() == sr->Ok_0.1,
                    Err(e) => sr == Err::<(char, int), DeserializeError>(e),
                }
            }),
    {
        let saved = self.pos;
        let v = match self.read_u32() {
            Ok(v) => v,
            Err(e) => {
                return Err(e);
            },
        };
        match char::from_u32(v) {
            Some(c) => {
                proof {
                    vstd::utf8::char_u32_cast(c, v);
                }
                Ok(c)
            },
            None => {
                self.pos = saved;
                Err(DeserializeError::Invalid)
            },
        }
    }

    pub fn read_bytes(&mut self) -> (r: Result<Vec<u8>, DeserializeError>)
        requires
            old(self).wf(),
        ensures
            final(self).wf(),
            final(self).spec_data() == old(self).spec_data(),
            ({
                let sr = spec_read_bytes(old(self).spec_data(), old(self).spec_pos());
                match r {
                    Ok(v) => sr is Ok && sr->Ok_0.0 == v@ && final(self).spec_pos() == sr->Ok_0.1,
                    Err(e) => sr == Err::<(Seq<u8>, int), DeserializeError>(e)
                        && final(self).spec_pos() == old(self).spec_pos(),
                }
            }),
    {
        let saved = self.pos;
        let len = match self.read_u32() {
            Ok(v) => v,
            Err(e) => {
                return Err(e);
            },
        };
        let len = len as usize;
        if self.data.len() - self.pos < len {
            self.pos = saved;
            return Err(DeserializeError::Incomplete);
        }
        let out = slice_to_vec(slice_subrange(self.data.as_slice(), self.pos, self.pos + len));
        self.pos = self.pos + len;
        Ok(out)
    }

    pub fn read_str(&mut self) -> (r: Result<String, DeserializeError>)
        requires
            old(self).wf(),
        ensures
            final(self).wf(),
            final(self).spec_data() == old(self).spec_data(),
            ({
                let sr = spec_read_str(old(self).spec_data(), old(self).spec_pos());
                match r {
                    Ok(v) => sr is Ok && sr->Ok_0.0 == v@ && final(self).spec_pos() == sr->Ok_0.1,
                    Err(e) => sr == Err::<(Seq<char>, int), DeserializeError>(e),
                }
            }),
    {
        let saved = self.pos;
        let bytes = match self.read_bytes() {
            Ok(v) => v,
            Err(e) => {
                return Err(e);
            },
        };
        match vec_to_string(bytes) {
            Some(s) => Ok(s),
            None => {
                self.pos = saved;
                Err(DeserializeError::Invalid)
            },
        }
    }
}

proof fn lemma_u16_recompose(v: u16)
    ensures
        ((v & 0xff) as u8 as u16) | ((((v >> 8) & 0xff) as u8 as u16) << 8) == v,
{
    assert(((v & 0xff) as u8 as u16) | ((((v >> 8) & 0xff) as u8 as u16) << 8) == v)
        by (bit_vector);
}

proof fn lemma_u32_recompose(v: u32)
    ensures
        ((v & 0xff) as u8 as u32) | ((((v >> 8) & 0xff) as u8 as u32) << 8) | ((((v >> 16)
            & 0xff) as u8 as u32) << 16) | ((((v >> 24) & 0xff) as u8 as u32) << 24) == v,
{
    assert(((v & 0xff) as u8 as u32) | ((((v >> 8) & 0xff) as u8 as u32) << 8) | ((((v >> 16)
        & 0xff) as u8 as u32) << 16) | ((((v >> 24) & 0xff) as u8 as u32) << 24) == v)
        by (bit_vector);
}

/// Reading a `u16` back from where the buffer holds its encoding.
pub proof fn lemma_read_ser_u16(b: Seq<u8>, i: int, v: u16)
    requires
        0 <= i,
        i + 2 <= b.len(),
        b.subrange(i, i + 2) =~= spec_ser_u16(v),
    ensures
        spec_read_u16(b, i) == Ok::<(u16, int), DeserializeError>((v, i + 2)),
{
    assert(b[i] == spec_ser_u16(v)[0]);
    assert(b[i + 1] == spec_ser_u16(v)[1]);
    lemma_u16_recompose(v);
}

/// Reading a `u32` back from where the buffer holds its encoding.
pub proof fn lemma_read_ser_u32(b: Seq<u8>, i: int, v: u32)
    requires
        0 <= i,
        i + 4 <= b.len(),
        b.subrange(i, i + 4) =~= spec_ser_u32(v),
    ensures
        spec_read_u32(b, i) == Ok::<(u32, int), DeserializeError>((v, i + 4)),
{
    assert(b[i] == spec_ser_u32(v)[0]);
    assert(b[i + 1] == spec_ser_u32(v)[1]);
    assert(b[i + 2] == spec_ser_u32(v)[2]);
    assert(b[i + 3] == spec_ser_u32(v)[3]);
    lemma_u32_recompose(v);
}

/// Reading a `char` back from where the buffer holds its encoding.
pub proof fn lemma_read_ser_char(b: Seq<u8>, i: int, c: char)
    requires
        0 <= i,
        i + 4 <= b.len(),
        b.subrange(i, i + 4) =~= spec_ser_char(c),
    ensures
        spec_read_char(b, i) == Ok::<(char, int), DeserializeError>((c, i + 4)),
{
    lemma_read_ser_u32(b, i, c as u32);
    vstd::utf8::char_is_scalar(c);
    vstd::utf8::char_u32_cast(c, c as u32);
}

/// Reading a byte slice back from where the buffer holds its encoding.
pub proof fn lemma_read_ser_bytes(b: Seq<u8>, i: int, p: Seq<u8>)
    requires
        0 <= i,
        p.len() <= u32::MAX,
        i + 4 + p.len() <= b.len(),
        b.subrange(i, i + 4 + p.len()) =~= spec_ser_bytes(p),
    ensures
        spec_read_bytes(b, i) == Ok::<(Seq<u8>, int), DeserializeError>((p, i + 4 + p.len())),
{
    let len32 = p.len() as u32;
    assert forall|k: int| 0 <= k < 4 implies b[i + k] == spec_ser_u32(len32)[k] by {
        assert(b.subrange(i, i + 4 + p.len())[k] == spec_ser_bytes(p)[k]);
    }
    assert(b.subrange(i, i + 4) =~= spec_ser_u32(len32));
    lemma_read_ser_u32(b, i, len32);
    assert forall|k: int| 0 <= k < p.len() implies b[i + 4 + k] == p[k] by {
        assert(b.subrange(i, i + 4 + p.len())[4 + k] == spec_ser_bytes(p)[4 + k]);
    }
    assert(b.subrange(i + 4, i + 4 + p.len()) =~= p);
}

/// Reading a string back from where the buffer holds its encoding.
pub proof fn lemma_read_ser_str(b: Seq<u8>, i: int, s: Seq<char>)
    requires
        0 <= i,
        vstd::utf8::encode_utf8(s).len() <= u32::MAX,
        i + spec_ser_str(s).len() <= b.len(),
        b.subrange(i, i + spec_ser_str(s).len()) =~= spec_ser_str(s),
    ensures
        spec_read_str(b, i) == Ok::<(Seq<char>, int), DeserializeError>(
            (s, i + spec_ser_str(s).len()),
        ),
{
    let e = vstd::utf8::encode_utf8(s);
    lemma_read_ser_bytes(b, i, e);
    vstd::utf8::encode_utf8_valid_utf8(s);
    vstd::utf8::encode_utf8_decode_utf8(s);
}

} // verus!
