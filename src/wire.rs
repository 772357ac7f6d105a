use vstd::prelude::*;
use vstd::slice::{slice_subrange, slice_to_vec};
use vstd::string::StringSliceAdditionalSpecFns;
use vstd::utf8::{decode_utf8, encode_utf8, valid_utf8};

use byteorder::{BigEndian, ByteOrder};

use crate::error::{agrees, fails_with, Error, Fault};

verus! {

/// The largest value of a signed 32-bit wire word.
pub const WORD_MAX: u32 = 0x7fff_ffff;

/// The unsigned big-endian value of the first four bytes of `b`.
pub open spec fn word_value(b: Seq<u8>) -> int {
    b[0] as int * 0x100_0000 + b[1] as int * 0x1_0000 + b[2] as int * 0x100 + b[3] as int
}

/// The two's-complement big-endian value of the first four bytes of `b`.
pub open spec fn signed_value(b: Seq<u8>) -> int {
    let u = word_value(b);
    if u < 0x8000_0000 {
        u
    } else {
        u - 0x1_0000_0000
    }
}

/// `n` as four bytes, most significant first.
pub open spec fn word_bytes(n: u32) -> Seq<u8> {
    seq![
        (n / 0x100_0000) as u8,
        (n / 0x1_0000 % 0x100) as u8,
        (n / 0x100 % 0x100) as u8,
        (n % 0x100) as u8,
    ]
}

/// The two's-complement encoding of `n`.
pub open spec fn int_bytes(n: i32) -> Seq<u8> {
    if n >= 0 {
        word_bytes(n as u32)
    } else {
        word_bytes((n + 0x1_0000_0000) as u32)
    }
}

/// The wire form of a string: its length plus one, its UTF-8 bytes, a NUL.
#[verifier::opaque]
pub open spec fn string_bytes(s: Seq<char>) -> Seq<u8> {
    int_bytes((encode_utf8(s).len() + 1) as i32) + encode_utf8(s) + seq![0u8]
}

/// Whether a string of these characters fits the length field of the wire form.
pub open spec fn fits_wire(s: Seq<char>) -> bool {
    encode_utf8(s).len() < WORD_MAX
}

/// Four bytes written for `n` read back as `n`.
pub proof fn lemma_word_round_trip(n: u32)
    ensures
        word_value(word_bytes(n)) == n,
{
    assert(n == (n / 0x100_0000) * 0x100_0000 + (n / 0x1_0000 % 0x100) * 0x1_0000 + (n / 0x100
        % 0x100) * 0x100 + n % 0x100) by (nonlinear_arith);
}

/// Four bytes written for a signed `n` read back as `n`.
pub proof fn lemma_int_round_trip(n: i32)
    ensures
        signed_value(int_bytes(n)) == n,
{
    if n >= 0 {
        lemma_word_round_trip(n as u32);
    } else {
        lemma_word_round_trip((n + 0x1_0000_0000) as u32);
    }
}

/// Decoding `n` bytes of text, `b` starting at the length field that gave `n`:
/// the bytes before the trailing NUL, as UTF-8.
pub open spec fn text_step(b: Seq<u8>, n: int) -> (Result<Seq<char>, Fault>, nat) {
    if b.len() < 4 + n {
        (Err(Fault::Truncated), 4)
    } else if valid_utf8(b.subrange(4, 4 + n - 1)) {
        (Ok(decode_utf8(b.subrange(4, 4 + n - 1))), (4 + n) as nat)
    } else {
        (Err(Fault::NotText), (4 + n) as nat)
    }
}

/// Decoding a string field at the start of `b`: the outcome and the bytes read.
pub open spec fn string_step(b: Seq<u8>) -> (Result<Seq<char>, Fault>, nat) {
    if b.len() < 4 {
        (Err(Fault::Truncated), 0)
    } else if signed_value(b) <= 0 {
        (Err(Fault::Malformed), 4)
    } else {
        text_step(b, signed_value(b))
    }
}

/// Decoding an optional string field at the start of `b`: a length field of 0,
/// or of 1 (the NUL alone), marks it absent.
pub open spec fn opt_string_step(b: Seq<u8>) -> (Result<Option<Seq<char>>, Fault>, nat) {
    if b.len() < 4 {
        (Err(Fault::Truncated), 0)
    } else if signed_value(b) < 0 {
        (Err(Fault::Malformed), 4)
    } else if signed_value(b) == 0 {
        (Ok(None), 4)
    } else {
        match text_step(b, signed_value(b)) {
            (Ok(t), k) => (Ok(if signed_value(b) == 1 { None } else { Some(t) }), k),
            (Err(f), k) => (Err(f), k),
        }
    }
}

/// The characters of an optional string.
pub open spec fn opt_text(o: Option<String>) -> Option<Seq<char>> {
    match o {
        Some(s) => Some(s@),
        None => None,
    }
}

/// Encoding a string that fits the wire form, then decoding it, gives the string
/// back and reads exactly its encoding, whatever follows.
pub proof fn lemma_string_round_trip(s: Seq<char>, tail: Seq<u8>)
    requires
        fits_wire(s),
    ensures
        string_step(string_bytes(s) + tail) == (Ok::<Seq<char>, Fault>(s), string_bytes(s).len()),
{
    reveal(string_bytes);
    let text = encode_utf8(s);
    let n = (text.len() + 1) as i32;
    let b = string_bytes(s) + tail;
    lemma_int_round_trip(n);
    assert(b.subrange(0, 4) == int_bytes(n));
    assert(word_value(b) == word_value(int_bytes(n)));
    assert(b.subrange(4, 4 + n - 1) == text);
    vstd::utf8::encode_utf8_valid_utf8(s);
    vstd::utf8::encode_utf8_decode_utf8(s);
}

/// A signed word at the front of `tail` reads back as itself.
pub proof fn lemma_int_prefix(n: i32, tail: Seq<u8>)
    ensures
        (int_bytes(n) + tail).len() == tail.len() + 4,
        signed_value(int_bytes(n) + tail) == n,
        (int_bytes(n) + tail).skip(4) == tail,
{
    let b = int_bytes(n) + tail;
    lemma_int_round_trip(n);
    assert(b.subrange(0, 4) == int_bytes(n));
    assert(word_value(b) == word_value(int_bytes(n)));
    assert(b.skip(4) =~= tail);
}

/// An unsigned word at the front of `tail` reads back as itself.
pub proof fn lemma_word_prefix(n: u32, tail: Seq<u8>)
    ensures
        (word_bytes(n) + tail).len() == tail.len() + 4,
        word_value(word_bytes(n) + tail) == n,
        (word_bytes(n) + tail).skip(4) == tail,
{
    let b = word_bytes(n) + tail;
    lemma_word_round_trip(n);
    assert(b.subrange(0, 4) == word_bytes(n));
    assert(word_value(b) == word_value(word_bytes(n)));
    assert(b.skip(4) =~= tail);
}

/// A non-empty string that fits the wire form decodes as present.
pub proof fn lemma_opt_string_present(s: Seq<char>, tail: Seq<u8>)
    requires
        fits_wire(s),
        s.len() > 0,
    ensures
        opt_string_step(string_bytes(s) + tail) == (Ok::<Option<Seq<char>>, Fault>(Some(s)), string_bytes(s).len()),
{
    lemma_string_round_trip(s, tail);
    reveal(string_bytes);
    assert(encode_utf8(s).len() > 0);
    let b = string_bytes(s) + tail;
    lemma_int_round_trip((encode_utf8(s).len() + 1) as i32);
    assert(b.subrange(0, 4) == int_bytes((encode_utf8(s).len() + 1) as i32));
    assert(word_value(b) == word_value(int_bytes((encode_utf8(s).len() + 1) as i32)));
}

/// A zero length field decodes as an absent string, and only it is read.
pub proof fn lemma_opt_string_absent(tail: Seq<u8>)
    ensures
        opt_string_step(word_bytes(0) + tail) == (Ok::<Option<Seq<char>>, Fault>(None), 4nat),
{
    lemma_word_round_trip(0);
    let b = word_bytes(0) + tail;
    assert(b.subrange(0, 4) == word_bytes(0));
    assert(word_value(b) == word_value(word_bytes(0)));
}

/// Relies on byteorder's `BigEndian::read_u32`: the first four bytes of `buf`, most significant first.
#[verifier::external_body]
fn be_read_u32(buf: &[u8]) -> (r: u32)
    requires
        buf@.len() >= 4,
    ensures
        r as int == word_value(buf@),
{
    BigEndian::read_u32(buf)
}

/// Relies on byteorder's `BigEndian::write_u32`: `n` as four bytes, most significant first.
#[verifier::external_body]
fn be_write_u32(n: u32) -> (r: [u8; 4])
    ensures
        r@ == word_bytes(n),
{
    let mut buf = [0u8; 4];
    BigEndian::write_u32(&mut buf, n);
    buf
}

/// Relies on `String::from_utf8`: it succeeds exactly on valid UTF-8 and then holds the decoded text.
#[verifier::external_body]
fn utf8_text(bytes: Vec<u8>) -> (r: Result<String, std::string::FromUtf8Error>)
    ensures
        r is Ok <==> valid_utf8(bytes@),
        r matches Ok(s) ==> s@ == decode_utf8(bytes@),
{
    String::from_utf8(bytes)
}

/// A bidirectional byte stream held in memory: what the client wrote, and the reply
/// bytes it reads from, with a read position that only moves forward.
pub struct ByteStream {
    sent: Vec<u8>,
    input: Vec<u8>,
    pos: usize,
}

pub struct StreamView {
    pub sent: Seq<u8>,
    pub input: Seq<u8>,
    pub pos: nat,
}

impl View for ByteStream {
    type V = StreamView;

    closed spec fn view(&self) -> StreamView {
        StreamView { sent: self.sent@, input: self.input@, pos: self.pos as nat }
    }
}

impl ByteStream {
    /// The read position lies within the reply bytes.
    pub open spec fn wf(&self) -> bool {
        self@.pos <= self@.input.len()
    }

    /// The reply bytes not read yet.
    pub open spec fn rest(&self) -> Seq<u8> {
        self@.input.subrange(self@.pos as int, self@.input.len() as int)
    }

    /// The stream is `old` after it wrote nothing and read `n` bytes.
    pub open spec fn advanced(&self, old: &ByteStream, n: nat) -> bool {
        &&& self@.sent == old@.sent
        &&& self@.input == old@.input
        &&& self@.pos == old@.pos + n
        &&& self.wf()
    }

    /// After reading `n` bytes, what is left is what was left, less its first `n`.
    pub proof fn lemma_rest_after(&self, old: &ByteStream, n: nat)
        requires
            self.advanced(old, n),
        ensures
            self.rest() == old.rest().skip(n as int),
    {
        assert(self.rest() =~= old.rest().skip(n as int));
    }

    /// A stream whose reply holds `input`, with nothing written or read yet.
    pub fn new(input: Vec<u8>) -> (s: ByteStream)
        ensures
            s@.sent == Seq::<u8>::empty(),
            s@.input == input@,
            s@.pos == 0,
            s.wf(),
    {
        ByteStream { sent: Vec::new(), input, pos: 0 }
    }

    /// The bytes written so far.
    pub fn sent(&self) -> (r: &[u8])
        ensures
            r@ == self@.sent,
    {
        self.sent.as_slice()
    }

    /// How many reply bytes are left to read.
    pub fn remaining(&self) -> (r: usize)
        requires
            self.wf(),
        ensures
            r == self.rest().len(),
    {
        self.input.len() - self.pos
    }

    /// How many reply bytes were read so far.
    pub fn position(&self) -> (r: usize)
        ensures
            r == self@.pos,
    {
        self.pos
    }

    /// Appends `bytes` to what was written.
    pub fn write_bytes(&mut self, bytes: &[u8])
        ensures
            final(self)@.sent == old(self)@.sent + bytes@,
            final(self)@.input == old(self)@.input,
            final(self)@.pos == old(self)@.pos,
    {
        let mut i: usize = 0;
        while i < bytes.len()
            invariant
                i <= bytes@.len(),
                self@.sent == old(self)@.sent + bytes@.subrange(0, i as int),
                self@.input == old(self)@.input,
                self@.pos == old(self)@.pos,
            decreases bytes@.len() - i,
        {
            self.sent.push(bytes[i]);
            i = i + 1;
            assert(bytes@.subrange(0, i as int) == bytes@.subrange(0, i - 1) + seq![bytes@[i - 1]]);
        }
        assert(bytes@.subrange(0, i as int) == bytes@);
    }

    pub fn write_u32(&mut self, n: u32)
        ensures
            final(self)@.sent == old(self)@.sent + word_bytes(n),
            final(self)@.input == old(self)@.input,
            final(self)@.pos == old(self)@.pos,
    {
        let buf = be_write_u32(n);
        self.write_bytes(&buf);
    }

    pub fn write_i32(&mut self, n: i32)
        ensures
            final(self)@.sent == old(self)@.sent + int_bytes(n),
            final(self)@.input == old(self)@.input,
            final(self)@.pos == old(self)@.pos,
    {
        if n >= 0 {
            self.write_u32(n as u32);
        } else {
            self.write_u32((n as i64 + 0x1_0000_0000) as u32);
        }
    }

    /// Reads the next `n` bytes, or fails with nothing read when fewer are left.
    pub fn read_exact(&mut self, n: usize) -> (r: Result<Vec<u8>, Error>)
        requires
            old(self).wf(),
        ensures
            n <= old(self).rest().len() ==> (r matches Ok(v) && v@ == old(self).rest().subrange(0, n as int))
                && final(self).advanced(old(self), n as nat),
            n > old(self).rest().len() ==> fails_with(r, Fault::Truncated) && final(self).advanced(old(self), 0),
    {
        if n > self.input.len() - self.pos {
            return Err(Error::Truncated);
        }
        let v = slice_to_vec(slice_subrange(self.input.as_slice(), self.pos, self.pos + n));
        self.pos = self.pos + n;
        Ok(v)
    }

    pub fn read_u32(&mut self) -> (r: Result<u32, Error>)
        requires
            old(self).wf(),
        ensures
            4 <= old(self).rest().len() ==> (r matches Ok(w) && w as int == word_value(old(self).rest()))
                && final(self).advanced(old(self), 4),
            4 > old(self).rest().len() ==> fails_with(r, Fault::Truncated) && final(self).advanced(old(self), 0),
    {
        if self.input.len() - self.pos < 4 {
            return Err(Error::Truncated);
        }
        let w = be_read_u32(slice_subrange(self.input.as_slice(), self.pos, self.pos + 4));
        self.pos = self.pos + 4;
        Ok(w)
    }

    pub fn read_i32(&mut self) -> (r: Result<i32, Error>)
        requires
            old(self).wf(),
        ensures
            4 <= old(self).rest().len() ==> (r matches Ok(w) && w as int == signed_value(old(self).rest()))
                && final(self).advanced(old(self), 4),
            4 > old(self).rest().len() ==> fails_with(r, Fault::Truncated) && final(self).advanced(old(self), 0),
    {
        let w = self.read_u32()?;
        if w <= WORD_MAX {
            Ok(w as i32)
        } else {
            Ok((w as i64 - 0x1_0000_0000) as i32)
        }
    }

    /// Writes `s` in its wire form; a string too long for the length field is
    /// refused and nothing is written.
    pub fn write_string(&mut self, s: &str) -> (r: Result<(), Error>)
        ensures
            fits_wire(s@) ==> r is Ok && final(self)@.sent == old(self)@.sent + string_bytes(s@),
            !fits_wire(s@) ==> fails_with(r, Fault::Malformed) && final(self)@.sent == old(self)@.sent,
            final(self)@.input == old(self)@.input,
            final(self)@.pos == old(self)@.pos,
    {
        let bytes = s.as_bytes();
        if bytes.len() >= WORD_MAX as usize {
            return Err(Error::BadNetworkDataError("string too long for a length field".to_owned()));
        }
        let length = bytes.len() as i32 + 1;
        self.write_i32(length);
        self.write_bytes(bytes);
        self.write_bytes(&[0u8]);
        proof {
            reveal(string_bytes);
            assert(s.spec_bytes() == encode_utf8(s@));
        }
        Ok(())
    }

    /// Reads `n` bytes of text, the length field that gave `n` just read, and drops
/// the trailing NUL.
    fn read_text(&mut self, n: i32) -> (r: Result<String, Error>)
        requires
            old(self).wf(),
            n > 0,
            old(self)@.pos >= 4,
        ensures
            ({
                let b = old(self)@.input.subrange(old(self)@.pos - 4, old(self)@.input.len() as int);
                let (o, k) = text_step(b, n as int);
                agrees(r, o) && final(self).advanced(old(self), (k - 4) as nat)
            }),
    {
        let ghost b = old(self)@.input.subrange(old(self)@.pos - 4, old(self)@.input.len() as int);
        let mut bytes = self.read_exact(n as usize)?;
        bytes.pop();
        proof {
            assert(bytes@ == b.subrange(4, 4 + n - 1));
        }
        match utf8_text(bytes) {
            Ok(text) => Ok(text),
            Err(e) => Err(Error::FromUtf8Error(e)),
        }
    }

    pub fn read_string(&mut self) -> (r: Result<String, Error>)
        requires
            old(self).wf(),
        ensures
            agrees(r, string_step(old(self).rest()).0),
            final(self).advanced(old(self), string_step(old(self).rest()).1),
    {
        let n = self.read_i32()?;
        if n <= 0 {
            return Err(Error::BadNetworkDataError("string length field is not positive".to_owned()));
        }
        proof {
            assert(old(self).rest() == self@.input.subrange(self@.pos - 4, self@.input.len() as int));
        }
        self.read_text(n)
    }

    pub fn read_opt_string(&mut self) -> (r: Result<Option<String>, Error>)
        requires
            old(self).wf(),
        ensures
            match opt_string_step(old(self).rest()).0 {
                Ok(v) => r matches Ok(x) && opt_text(x) == v,
                Err(f) => fails_with(r, f),
            },
            final(self).advanced(old(self), opt_string_step(old(self).rest()).1),
    {
        let n = self.read_i32()?;
        if n < 0 {
            return Err(Error::BadNetworkDataError("string length field is negative".to_owned()));
        }
        if n == 0 {
            return Ok(None);
        }
        proof {
            assert(old(self).rest() == self@.input.subrange(self@.pos - 4, self@.input.len() as int));
        }
        let text = self.read_text(n)?;
        if n == 1 {
            Ok(None)
        } else {
            Ok(Some(text))
        }
    }
}

} // verus!
