//! Users and how they are stored.
use vstd::prelude::*;
use vstd::utf8::*;
use vstd::string::StringSliceAdditionalSpecFns;
use crate::storage::decode::{
    field_result, lemma_text_round_trip, lemma_u32_round_trip, u32_result, Decode, Decoder, be_u32,
};
use crate::storage::encode::{text_field, u32_be, Encode, Encoder};
use crate::storage::error::StoreError;
use crate::storage::util::HasId;

verus! {

/// A registered user: the password is kept as its hash.
pub struct User {
    pub id: u32,
    pub username: String,
    pub password: String,
    pub session: String,
}

/// A user's fields as bytes.
pub struct UserModel {
    pub id: u32,
    pub username: Seq<u8>,
    pub password: Seq<u8>,
    pub session: Seq<u8>,
}

impl View for User {
    type V = UserModel;

    open spec fn view(&self) -> UserModel {
        UserModel {
            id: self.id,
            username: encode_utf8(self.username@),
            password: encode_utf8(self.password@),
            session: encode_utf8(self.session@),
        }
    }
}

/// A stored user: the id, then the name, password and session as text
/// fields.
pub open spec fn user_bytes(u: UserModel) -> Seq<u8> {
    u32_be(u.id) + text_field(u.username) + text_field(u.password) + text_field(u.session)
}

/// Whether every text field of `u` fits a `u32` length.
pub open spec fn user_fits(u: UserModel) -> bool {
    u.username.len() <= u32::MAX && u.password.len() <= u32::MAX && u.session.len() <= u32::MAX
}

/// What reading a user from the start of `b` comes to: the user and what
/// follows it, or the first error met reading the id and the three text
/// fields in order.
pub open spec fn decode_user(b: Seq<u8>) -> Result<(UserModel, Seq<u8>), StoreError> {
    match u32_result(b) {
        Err(e) => Err(e),
        Ok((id, r0)) => match field_result(r0) {
            Err(e) => Err(e),
            Ok((name, r1)) => match field_result(r1) {
                Err(e) => Err(e),
                Ok((pass, r2)) => match field_result(r2) {
                    Err(e) => Err(e),
                    Ok((sess, r3)) => Ok(
                        (UserModel { id, username: name, password: pass, session: sess }, r3),
                    ),
                },
            },
        },
    }
}

/// A stored user reads back as itself, whatever follows it.
pub proof fn lemma_user_round_trip(u: UserModel, rest: Seq<u8>)
    requires
        user_fits(u),
        valid_utf8(u.username),
        valid_utf8(u.password),
        valid_utf8(u.session),
    ensures
        decode_user(user_bytes(u) + rest) == Ok::<(UserModel, Seq<u8>), StoreError>((u, rest)),
{
    let b = user_bytes(u) + rest;
    lemma_u32_round_trip(u.id);
    assert(b.subrange(0, 4) =~= u32_be(u.id));
    assert(be_u32(b) == be_u32(u32_be(u.id)));
    let t3 = text_field(u.session) + rest;
    let t2 = text_field(u.password) + t3;
    let t1 = text_field(u.username) + t2;
    assert(b.subrange(4, b.len() as int) =~= t1);
    lemma_text_round_trip(u.username, t2);
    lemma_text_round_trip(u.password, t3);
    lemma_text_round_trip(u.session, rest);
}

impl User {
    /// A new user, not stored yet (id 0).
    pub fn new(username: String, password: String, session: String) -> (r: Self)
        ensures
            r.id == 0,
            r.username@ == username@,
            r.password@ == password@,
            r.session@ == session@,
    {
        User { id: 0, username, password, session }
    }
}

impl Encode for User {
    open spec fn encode_spec(&self, id: u32) -> Option<Seq<u8>> {
        if user_fits(self@) {
            Some(user_bytes(UserModel { id, ..self@ }))
        } else {
            None
        }
    }

    fn encode(&self, id: u32) -> (r: Result<Vec<u8>, StoreError>)
        ensures
            match r {
                Ok(b) => user_fits(self@) && b@ == user_bytes(UserModel { id, ..self@ }),
                Err(e) => !user_fits(self@) && e matches StoreError::FieldTooLarge(_),
            },
    {
        let mut encoder = Encoder::new();
        encoder.write_u32(id);
        match encoder.write_string(self.username.as_str()) {
            Ok(()) => {},
            Err(e) => {
                return Err(e);
            },
        }
        match encoder.write_string(self.password.as_str()) {
            Ok(()) => {},
            Err(e) => {
                return Err(e);
            },
        }
        match encoder.write_string(self.session.as_str()) {
            Ok(()) => {},
            Err(e) => {
                return Err(e);
            },
        }
        Ok(encoder.bytes)
    }
}

impl Decode for User {
    open spec fn decode_spec(b: Seq<u8>) -> Result<(u32, Seq<u8>), StoreError> {
        match decode_user(b) {
            Ok((m, rest)) => Ok((m.id, rest)),
            Err(e) => Err(e),
        }
    }

    open spec fn decodes_to(b: Seq<u8>, x: Self) -> bool {
        decode_user(b) matches Ok((m, _)) && x@ == m
    }

    fn decode(decoder: &mut Decoder<'_>) -> (r: Result<Self, StoreError>)
        ensures
            match r {
                Ok(u) => decode_user(old(decoder).bytes@) == Ok::<(UserModel, Seq<u8>), StoreError>(
                    (u@, final(decoder).bytes@),
                ),
                Err(e) => decode_user(old(decoder).bytes@) == Err::<(UserModel, Seq<u8>), StoreError>(
                    e,
                ),
            },
    {
        let ghost b0 = decoder.bytes@;
        let id = match decoder.read_u32() {
            Ok(v) => v,
            Err(e) => {
                return Err(e);
            },
        };
        let username = match decoder.read_str() {
            Ok(s) => s.to_owned(),
            Err(e) => {
                return Err(e);
            },
        };
        let password = match decoder.read_str() {
            Ok(s) => s.to_owned(),
            Err(e) => {
                return Err(e);
            },
        };
        let session = match decoder.read_str() {
            Ok(s) => s.to_owned(),
            Err(e) => {
                return Err(e);
            },
        };
        proof {
            encode_utf8_valid_utf8(username@);
            encode_utf8_valid_utf8(password@);
            encode_utf8_valid_utf8(session@);
        }
        Ok(User { id, username, password, session })
    }
}

impl HasId for User {
    open spec fn id_spec(&self) -> u32 {
        self.id
    }

    fn id(&self) -> (r: u32)
        ensures
            r == self.id,
    {
        self.id
    }
}

/// A user as stored under `id` reads back as a record carrying `id`, with
/// nothing left over.
pub proof fn lemma_user_reads_back(u: User, id: u32)
    requires
        u.encode_spec(id) is Some,
    ensures
        User::decode_spec(u.encode_spec(id)->0) == Ok::<(u32, Seq<u8>), StoreError>(
            (id, Seq::<u8>::empty()),
        ),
{
    let m = UserModel { id, ..u@ };
    encode_utf8_valid_utf8(u.username@);
    encode_utf8_valid_utf8(u.password@);
    encode_utf8_valid_utf8(u.session@);
    lemma_user_round_trip(m, Seq::<u8>::empty());
    assert(user_bytes(m) + Seq::<u8>::empty() =~= user_bytes(m));
}

} // verus!
