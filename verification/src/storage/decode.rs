//! Reading records back: big-endian integers and length-prefixed text.
use vstd::prelude::*;
use vstd::utf8::*;
use vstd::string::StringSliceAdditionalSpecFns;
use crate::sha256::be_word;
use crate::storage::encode::{text_field, u32_be};
use crate::storage::error::StoreError;
use crate::storage::util::HasId;
use crate::text::{Utf8Fault, str_from_utf8, utf8_error_len, utf8_valid_up_to};

verus! {

/// A record that can be read back.
pub trait Decode: Sized + HasId {
    /// What reading a record from the start of `b` comes to: the id of the
    /// record read and the bytes after it, or the error (a record that does
    /// not say is never read).
    open spec fn decode_spec(b: Seq<u8>) -> Result<(u32, Seq<u8>), StoreError> {
        Err(StoreError::InvalidStorageFormat)
    }

    /// Whether `x` is the record read from the start of `b`.
    open spec fn decodes_to(b: Seq<u8>, x: Self) -> bool {
        false
    }

    fn decode(decoder: &mut Decoder<'_>) -> (r: Result<Self, StoreError>)
        ensures
            match r {
                Ok(x) => Self::decode_spec(old(decoder).bytes@) == Ok::<(u32, Seq<u8>), StoreError>(
                    (x.id_spec(), final(decoder).bytes@),
                ) && Self::decodes_to(old(decoder).bytes@, x),
                Err(e) => Self::decode_spec(old(decoder).bytes@) == Err::<(u32, Seq<u8>), StoreError>(
                    e,
                ),
            },
    ;
}

/// The bytes not read yet.
pub struct Decoder<'a> {
    pub bytes: &'a [u8],
}

/// The 32-bit value whose big-endian bytes start `b`.
pub open spec fn be_u32(b: Seq<u8>) -> u32 {
    be_word(b, 0)
}

/// A value written big-endian reads back as itself.
pub proof fn lemma_u32_round_trip(n: u32)
    ensures
        be_u32(u32_be(n)) == n,
{
    let b = u32_be(n);
    assert(((((n >> 24u32) as u8) as u32) << 24u32) | ((((n >> 16u32) as u8) as u32) << 16u32) | (
    (((n >> 8u32) as u8) as u32) << 8u32) | ((n as u8) as u32) == n) by (bit_vector);
}

/// A text field read back from `b`: `Some((text, rest))` when `b` starts
/// with a length and that many bytes.
pub open spec fn read_field(b: Seq<u8>) -> Option<(Seq<u8>, Seq<u8>)> {
    if b.len() < 4 {
        None
    } else {
        let n = be_u32(b);
        if b.len() - 4 < n {
            None
        } else {
            Some((b.subrange(4, 4 + n), b.subrange(4 + n, b.len() as int)))
        }
    }
}

/// What reading a text field from the start of `b` comes to: the text and
/// the bytes after it; a missing length or missing bytes give
/// `UnexpectedEndOfPayload`, text that is not UTF-8 `InvalidUtf8` with the
/// field's length.
pub open spec fn field_result(b: Seq<u8>) -> Result<(Seq<u8>, Seq<u8>), StoreError> {
    match read_field(b) {
        None => Err(StoreError::UnexpectedEndOfPayload),
        Some((t, rest)) => if valid_utf8(t) {
            Ok((t, rest))
        } else {
            Err(StoreError::InvalidUtf8(utf8_fault(t)))
        },
    }
}

/// Where UTF-8 validation of `t` stops.
#[verifier::opaque]
pub open spec fn utf8_fault(t: Seq<u8>) -> Utf8Fault {
    Utf8Fault { valid_up_to: utf8_valid_up_to(t) as usize, error_len: utf8_error_len(t) }
}

/// What reading a big-endian `u32` from the start of `b` comes to.
pub open spec fn u32_result(b: Seq<u8>) -> Result<(u32, Seq<u8>), StoreError> {
    if b.len() < 4 {
        Err(StoreError::UnexpectedEndOfPayload)
    } else {
        Ok((be_u32(b), b.subrange(4, b.len() as int)))
    }
}

/// Written text followed by more bytes reads back as that text and those
/// bytes.
pub proof fn lemma_text_round_trip(t: Seq<u8>, rest: Seq<u8>)
    requires
        t.len() <= u32::MAX,
    ensures
        read_field(text_field(t) + rest) == Some((t, rest)),
{
    let b = text_field(t) + rest;
    lemma_u32_round_trip(t.len() as u32);
    assert(b.subrange(0, 4) =~= u32_be(t.len() as u32));
    assert(be_u32(b) == be_u32(u32_be(t.len() as u32)));
    assert(b.subrange(4, 4 + t.len() as int) =~= t);
    assert(b.subrange(4 + t.len() as int, b.len() as int) =~= rest);
}

impl<'a> Decoder<'a> {
    /// Reads from the start of `bytes`.
    pub fn new(bytes: &'a [u8]) -> (r: Self)
        ensures
            r.bytes@ == bytes@,
    {
        Decoder { bytes }
    }

    /// The next `len` bytes; refused, reading nothing, when fewer are left.
    fn read_bytes(&mut self, len: usize) -> (r: Result<&'a [u8], StoreError>)
        ensures
            match r {
                Ok(v) => len <= old(self).bytes@.len() && v@ == old(self).bytes@.subrange(
                    0,
                    len as int,
                ) && final(self).bytes@ == old(self).bytes@.subrange(
                    len as int,
                    old(self).bytes@.len() as int,
                ),
                Err(e) => len > old(self).bytes@.len() && e is UnexpectedEndOfPayload && final(self).bytes@ == old(self).bytes@,
            },
    {
        let b = self.bytes;
        let n = b.len();
        if len > n {
            return Err(StoreError::UnexpectedEndOfPayload);
        }
        let value = &b[0..len];
        self.bytes = &b[len..n];
        Ok(value)
    }

    /// Reads a big-endian `u32`; refused, reading nothing, when fewer than
    /// four bytes are left.
    pub fn read_u32(&mut self) -> (r: Result<u32, StoreError>)
        ensures
            match r {
                Ok(v) => old(self).bytes@.len() >= 4 && v == be_u32(old(self).bytes@) && final(self).bytes@ == old(self).bytes@.subrange(4, old(self).bytes@.len() as int),
                Err(e) => old(self).bytes@.len() < 4 && e is UnexpectedEndOfPayload && final(self).bytes@ == old(self).bytes@,
            },
            u32_result(old(self).bytes@) == match r {
                Ok(v) => Ok::<(u32, Seq<u8>), StoreError>((v, final(self).bytes@)),
                Err(e) => Err(e),
            },
    {
        let b = match self.read_bytes(4) {
            Ok(b) => b,
            Err(e) => {
                return Err(e);
            },
        };
        let v = ((b[0] as u32) << 24u32) | ((b[1] as u32) << 16u32) | ((b[2] as u32) << 8u32) | (
        b[3] as u32);
        Ok(v)
    }

    /// Reads a text field (see `read_field`); a missing length or missing
    /// bytes give `UnexpectedEndOfPayload`, text that is not UTF-8 gives
    /// `InvalidUtf8` with the field's length.
    pub fn read_str(&mut self) -> (r: Result<&'a str, StoreError>)
        ensures
            match r {
                Ok(s) => read_field(old(self).bytes@) == Some((s.spec_bytes(), final(self).bytes@)),
                Err(StoreError::InvalidUtf8(f)) => read_field(old(self).bytes@) matches Some(
                    (t, rest),
                ) && !valid_utf8(t) && f == utf8_fault(t) && final(self).bytes@ == rest,
                Err(e) => read_field(old(self).bytes@) is None && e is UnexpectedEndOfPayload,
            },
            field_result(old(self).bytes@) == match r {
                Ok(s) => Ok::<(Seq<u8>, Seq<u8>), StoreError>((s.spec_bytes(), final(self).bytes@)),
                Err(e) => Err(e),
            },
    {
        let ghost b0 = self.bytes@;
        let len = match self.read_u32() {
            Ok(n) => n,
            Err(e) => {
                return Err(e);
            },
        };
        let bytes = match self.read_bytes(len as usize) {
            Ok(b) => b,
            Err(e) => {
                return Err(e);
            },
        };
        proof {
            assert(b0.subrange(4, b0.len() as int).subrange(0, len as int) =~= b0.subrange(4, 4 + len));
            assert(b0.subrange(4, b0.len() as int).subrange(len as int, b0.len() - 4) =~= b0.subrange(
                4 + len,
                b0.len() as int,
            ));
        }
        match str_from_utf8(bytes) {
            Ok(s) => Ok(s),
            Err(f) => {
                proof {
                    reveal(utf8_fault);
                }
                Err(StoreError::InvalidUtf8(f))
            },
        }
    }
}

} // verus!
