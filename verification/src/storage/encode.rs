//! Writing records: big-endian integers and length-prefixed text.
use vstd::prelude::*;
use vstd::string::StringSliceAdditionalSpecFns;
use crate::storage::error::StoreError;

verus! {

/// A record that can be written with the id it is stored under.
pub trait Encode {
    /// The bytes the record is written as under `id`; `None` when it cannot
    /// be written (which is all that is known of a record that does not say).
    open spec fn encode_spec(&self, id: u32) -> Option<Seq<u8>> {
        None
    }

    fn encode(&self, id: u32) -> (r: Result<Vec<u8>, StoreError>)
        ensures
            match r {
                Ok(b) => self.encode_spec(id) == Some(b@),
                Err(_) => self.encode_spec(id) is None,
            },
    ;
}

/// The big-endian bytes of a 32-bit value.
pub open spec fn u32_be(n: u32) -> Seq<u8> {
    seq![(n >> 24u32) as u8, (n >> 16u32) as u8, (n >> 8u32) as u8, n as u8]
}

/// A text field: its length in bytes as a big-endian `u32`, then its bytes.
pub open spec fn text_field(t: Seq<u8>) -> Seq<u8> {
    u32_be(t.len() as u32) + t
}

/// Bytes written so far.
pub struct Encoder {
    pub bytes: Vec<u8>,
}

impl Encoder {
    /// Nothing written yet.
    pub fn new() -> (r: Self)
        ensures
            r.bytes@ == Seq::<u8>::empty(),
    {
        Encoder { bytes: Vec::new() }
    }

    /// Writes `number` big-endian.
    pub fn write_u32(&mut self, number: u32)
        ensures
            final(self).bytes@ == old(self).bytes@ + u32_be(number),
    {
        let ghost start = self.bytes@;
        self.bytes.push((number >> 24u32) as u8);
        self.bytes.push((number >> 16u32) as u8);
        self.bytes.push((number >> 8u32) as u8);
        self.bytes.push(number as u8);
        assert(self.bytes@ =~= start + u32_be(number));
    }

    /// Writes `text` as a text field (see `text_field`); text longer than a
    /// `u32` can count is refused and nothing is written.
    pub fn write_string(&mut self, text: &str) -> (r: Result<(), StoreError>)
        ensures
            match r {
                Ok(()) => text.spec_bytes().len() <= u32::MAX && final(self).bytes@ == old(self).bytes@ + text_field(text.spec_bytes()),
                Err(e) => text.spec_bytes().len() > u32::MAX && final(self).bytes@ == old(self).bytes@ && e matches StoreError::FieldTooLarge(_),
            },
    {
        let b = text.as_bytes();
        if b.len() > 0xffff_ffffusize {
            return Err(
                StoreError::FieldTooLarge(
                    "out of range integral type conversion attempted".to_owned(),
                ),
            );
        }
        let ghost start = self.bytes@;
        self.write_u32(b.len() as u32);
        let mut i: usize = 0;
        while i < b.len()
            invariant
                i <= b@.len(),
                b@ == text.spec_bytes(),
                b@.len() <= u32::MAX,
                self.bytes@ == start + u32_be(b@.len() as u32) + b@.subrange(0, i as int),
            decreases b@.len() - i,
        {
            self.bytes.push(b[i]);
            assert(b@.subrange(0, i + 1) =~= b@.subrange(0, i as int).push(b@[i as int]));
            i += 1;
        }
        assert(b@.subrange(0, i as int) =~= b@);
        assert(self.bytes@ =~= start + text_field(text.spec_bytes()));
        Ok(())
    }
}

} // verus!
