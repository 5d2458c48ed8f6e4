//! Resources and how they are stored.
use vstd::prelude::*;
use vstd::utf8::*;
use vstd::string::StringSliceAdditionalSpecFns;
use crate::storage::decode::{
    field_result, lemma_text_round_trip, lemma_u32_round_trip, u32_result, Decode, Decoder, be_u32,
};
use crate::storage::encode::{text_field, u32_be, Encode, Encoder};
use crate::storage::error::StoreError;
use crate::storage::util::HasId;

verus! {

/// A named, numbered resource.
#[derive(Debug)]
pub struct Resource {
    pub id: u32,
    pub name: String,
    pub number: u32,
}

/// A resource's fields, the name as bytes.
pub struct ResourceModel {
    pub id: u32,
    pub name: Seq<u8>,
    pub number: u32,
}

impl View for Resource {
    type V = ResourceModel;

    open spec fn view(&self) -> ResourceModel {
        ResourceModel { id: self.id, name: encode_utf8(self.name@), number: self.number }
    }
}

/// A stored resource: the id, the name as a text field, the number.
pub open spec fn resource_bytes(r: ResourceModel) -> Seq<u8> {
    u32_be(r.id) + text_field(r.name) + u32_be(r.number)
}

/// What reading a resource from the start of `b` comes to: the resource and
/// what follows it, or the first error met reading the id, the name and the
/// number in order.
pub open spec fn decode_resource(b: Seq<u8>) -> Result<(ResourceModel, Seq<u8>), StoreError> {
    match u32_result(b) {
        Err(e) => Err(e),
        Ok((id, r0)) => match field_result(r0) {
            Err(e) => Err(e),
            Ok((name, r1)) => match u32_result(r1) {
                Err(e) => Err(e),
                Ok((number, r2)) => Ok((ResourceModel { id, name, number }, r2)),
            },
        },
    }
}

/// A stored resource reads back as itself, whatever follows it.
pub proof fn lemma_resource_round_trip(r: ResourceModel, rest: Seq<u8>)
    requires
        r.name.len() <= u32::MAX,
        valid_utf8(r.name),
    ensures
        decode_resource(resource_bytes(r) + rest) == Ok::<(ResourceModel, Seq<u8>), StoreError>(
            (r, rest),
        ),
{
    let b = resource_bytes(r) + rest;
    lemma_u32_round_trip(r.id);
    lemma_u32_round_trip(r.number);
    assert(b.subrange(0, 4) =~= u32_be(r.id));
    assert(be_u32(b) == be_u32(u32_be(r.id)));
    let t2 = u32_be(r.number) + rest;
    assert(b.subrange(4, b.len() as int) =~= text_field(r.name) + t2);
    lemma_text_round_trip(r.name, t2);
    assert(t2.subrange(0, 4) =~= u32_be(r.number));
    assert(be_u32(t2) == be_u32(u32_be(r.number)));
    assert(t2.subrange(4, t2.len() as int) =~= rest);
}

impl Resource {
    /// A new resource, not stored yet (id 0).
    pub fn new(name: String, number: u32) -> (r: Self)
        ensures
            r.id == 0,
            r.name@ == name@,
            r.number == number,
    {
        Resource { id: 0, name, number }
    }
}

impl Encode for Resource {
    open spec fn encode_spec(&self, id: u32) -> Option<Seq<u8>> {
        if self@.name.len() <= u32::MAX {
            Some(resource_bytes(ResourceModel { id, ..self@ }))
        } else {
            None
        }
    }

    fn encode(&self, id: u32) -> (r: Result<Vec<u8>, StoreError>)
        ensures
            match r {
                Ok(b) => self@.name.len() <= u32::MAX && b@ == resource_bytes(
                    ResourceModel { id, ..self@ },
                ),
                Err(e) => self@.name.len() > u32::MAX && e matches StoreError::FieldTooLarge(_),
            },
    {
        let mut encoder = Encoder::new();
        encoder.write_u32(id);
        match encoder.write_string(self.name.as_str()) {
            Ok(()) => {},
            Err(e) => {
                return Err(e);
            },
        }
        encoder.write_u32(self.number);
        Ok(encoder.bytes)
    }
}

impl Decode for Resource {
    open spec fn decode_spec(b: Seq<u8>) -> Result<(u32, Seq<u8>), StoreError> {
        match decode_resource(b) {
            Ok((m, rest)) => Ok((m.id, rest)),
            Err(e) => Err(e),
        }
    }

    open spec fn decodes_to(b: Seq<u8>, x: Self) -> bool {
        decode_resource(b) matches Ok((m, _)) && x@ == m
    }

    fn decode(decoder: &mut Decoder<'_>) -> (r: Result<Self, StoreError>)
        ensures
            match r {
                Ok(v) => decode_resource(old(decoder).bytes@) == Ok::<
                    (ResourceModel, Seq<u8>),
                    StoreError,
                >((v@, final(decoder).bytes@)),
                Err(e) => decode_resource(old(decoder).bytes@) == Err::<
                    (ResourceModel, Seq<u8>),
                    StoreError,
                >(e),
            },
    {
        let id = match decoder.read_u32() {
            Ok(v) => v,
            Err(e) => {
                return Err(e);
            },
        };
        let name = match decoder.read_str() {
            Ok(s) => s.to_owned(),
            Err(e) => {
                return Err(e);
            },
        };
        let number = match decoder.read_u32() {
            Ok(v) => v,
            Err(e) => {
                return Err(e);
            },
        };
        proof {
            encode_utf8_valid_utf8(name@);
        }
        Ok(Resource { id, name, number })
    }
}

impl HasId for Resource {
    open spec fn id_spec(&self) -> u32 {
        self.id
    }

    fn id(&self) -> (r: u32)
        ensures
            r == self.id,
    {
        self.id
    }
}

/// A resource as stored under `id` reads back as a record carrying `id`,
/// with nothing left over.
pub proof fn lemma_resource_reads_back(r: Resource, id: u32)
    requires
        r.encode_spec(id) is Some,
    ensures
        Resource::decode_spec(r.encode_spec(id)->0) == Ok::<(u32, Seq<u8>), StoreError>(
            (id, Seq::<u8>::empty()),
        ),
{
    let m = ResourceModel { id, ..r@ };
    encode_utf8_valid_utf8(r.name@);
    lemma_resource_round_trip(m, Seq::<u8>::empty());
    assert(resource_bytes(m) + Seq::<u8>::empty() =~= resource_bytes(m));
}

} // verus!
