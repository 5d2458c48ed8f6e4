//! The decisions of the login and registration pages.
use vstd::prelude::*;
use vstd::utf8::*;
use vstd::string::StringSliceAdditionalSpecFns;
use crate::app::login::model::User;
use crate::bytes::bytes_eq_exec;
use crate::http::cookie::{Cookie, CookieView, build_spec, valid_cookie_value};
use crate::http::error::{HttpError, http_message};
use crate::http::request::{Request, cookie_value_spec};
use crate::http::response::{
    Response, ResponseModel, StatusCode, framing_header, has_line_break, header_refused,
    lemma_line_break_concat, lemma_no_line_break,
};
use crate::text::lemma_encode_concat;

verus! {

/// The index of the first user named `username`.
pub open spec fn first_user(users: Seq<User>, username: Seq<u8>) -> Option<int>
    decreases users.len(),
{
    if users.len() == 0 {
        None
    } else if encode_utf8(users[0].username@) == username {
        Some(0)
    } else {
        match first_user(users.subrange(1, users.len() as int), username) {
            Some(k) => Some(k + 1),
            None => None,
        }
    }
}

/// The first user named `username`.
pub fn find_user<'a>(users: &'a [User], username: &str) -> (r: Option<&'a User>)
    ensures
        match first_user(users@, username.spec_bytes()) {
            Some(k) => r == Some(&users@[k]),
            None => r is None,
        },
{
    let mut k: usize = 0;
    assert(users@.subrange(0, users@.len() as int) =~= users@);
    while k < users.len()
        invariant
            k <= users@.len(),
            first_user(users@, username.spec_bytes()) == match first_user(
                users@.subrange(k as int, users@.len() as int),
                username.spec_bytes(),
            ) {
                Some(i) => Some(i + k),
                None => None,
            },
        decreases users@.len() - k,
    {
        let ghost rest = users@.subrange(k as int, users@.len() as int);
        assert(rest[0] == users@[k as int]);
        if bytes_eq_exec(users[k].username.as_str().as_bytes(), username.as_bytes()) {
            return Some(&users[k]);
        }
        assert(rest.subrange(1, rest.len() as int) =~= users@.subrange(k + 1, users@.len() as int));
        k += 1;
    }
    assert(users@.subrange(k as int, users@.len() as int).len() == 0);
    None
}

/// What a login attempt comes to: no user of that name, a wrong password, or
/// the id of the user signed in.
#[derive(Debug, Clone, Copy, PartialEq, Eq, Structural)]
pub enum Login {
    UnknownUser,
    WrongPassword,
    Accepted(u32),
}

/// Checks a login: the first user named `username` must exist and its stored
/// hash equal `password_hash`.
pub fn authenticate(users: &[User], username: &str, password_hash: &str) -> (r: Login)
    ensures
        match first_user(users@, username.spec_bytes()) {
            None => r == Login::UnknownUser,
            Some(k) => if users@[k].password@ == password_hash@ {
                r == Login::Accepted(users@[k].id)
            } else {
                r == Login::WrongPassword
            },
        },
{
    match find_user(users, username) {
        None => Login::UnknownUser,
        Some(user) => {
            let same = bytes_eq_exec(user.password.as_str().as_bytes(), password_hash.as_bytes());
            proof {
                if same {
                    encode_utf8_decode_utf8(user.password@);
                    encode_utf8_decode_utf8(password_hash@);
                } else {
                    if user.password@ == password_hash@ {
                        assert(encode_utf8(user.password@) == encode_utf8(password_hash@));
                    }
                }
            }
            if same {
                Login::Accepted(user.id)
            } else {
                Login::WrongPassword
            }
        },
    }
}

/// The `Set-Cookie` value that carries a session: a cookie named `session`
/// with the default attributes; refused when the session is not a valid
/// cookie value.
pub fn session_cookie(session: &str) -> (r: Result<String, HttpError>)
    ensures
        match r {
            Ok(s) => valid_cookie_value(session.spec_bytes()) && s@ == build_spec(
                CookieView {
                    name: "session"@,
                    value: session@,
                    path: "/"@,
                    domain: Seq::<char>::empty(),
                    http_only: true,
                    secure: false,
                    max_age: None,
                    samesite: crate::http::cookie::SameSite::Lax,
                },
            ),
            Err(e) => e == HttpError::InvalidCookie,
        },
        r is Ok <==> valid_cookie_value(session.spec_bytes()),
{
    proof {
        reveal_strlit("session");
        vstd::utf8::is_ascii_chars_encode_utf8("session"@);
        let b = "session".spec_bytes();
        assert(b =~= seq![115u8, 101u8, 115u8, 115u8, 105u8, 111u8, 110u8]);
        assert(crate::http::cookie::valid_cookie_name(b));
    }
    let mut cookie = Cookie::new();
    match cookie.set_name_value("session", session) {
        Ok(()) => {},
        Err(e) => {
            return Err(e);
        },
    }
    proof {
        assert(crate::http::cookie::valid_cookie_name("session".spec_bytes()));
    }
    Ok(cookie.build())
}


/// The `Set-Cookie` text that hands over session `s`: a cookie named
/// `session` with the default attributes.
pub open spec fn session_cookie_text(s: Seq<char>) -> Seq<char> {
    build_spec(
        CookieView {
            name: "session"@,
            value: s,
            path: "/"@,
            domain: Seq::<char>::empty(),
            http_only: true,
            secure: false,
            max_age: None,
            samesite: crate::http::cookie::SameSite::Lax,
        },
    )
}

/// A plain-text reply.
pub open spec fn text_reply(status: StatusCode, text: Seq<u8>) -> ResponseModel {
    ResponseModel {
        status,
        headers: seq![("Content-Type".spec_bytes(), "text/plain".spec_bytes())],
        body: text,
    }
}

/// The redirect to the resource list.
pub open spec fn to_resources() -> ResponseModel {
    ResponseModel {
        status: StatusCode::SeeOther,
        headers: seq![("Location".spec_bytes(), "/resources".spec_bytes())],
        body: Seq::<u8>::empty(),
    }
}

/// The reply that signs a visitor in with session `s`: the redirect to the
/// resource list carrying the session cookie, or a 500 reporting an invalid
/// cookie when `s` cannot be a cookie value.
pub open spec fn session_redirect_spec(s: Seq<char>) -> ResponseModel {
    if valid_cookie_value(encode_utf8(s)) {
        ResponseModel {
            headers: to_resources().headers.push(
                ("Set-Cookie".spec_bytes(), encode_utf8(session_cookie_text(s))),
            ),
            ..to_resources()
        }
    } else {
        text_reply(
            StatusCode::InternalServerError,
            encode_utf8(http_message(HttpError::InvalidCookie)),
        )
    }
}

/// Neither `Location` nor `Set-Cookie` is a header the serializer owns, and
/// neither the target `/resources` nor these names hold a line break.
pub(crate) proof fn lemma_redirect_headers()
    ensures
        !header_refused("Location".spec_bytes(), "/resources".spec_bytes()),
        !has_line_break("Set-Cookie".spec_bytes()),
        !framing_header("Set-Cookie".spec_bytes()),
{
    reveal_strlit("Location");
    reveal_strlit("/resources");
    reveal_strlit("Set-Cookie");
    reveal_strlit("Transfer-Encoding");
    reveal_strlit("Connection");
    lemma_no_line_break("Location"@);
    lemma_no_line_break("/resources"@);
    lemma_no_line_break("Set-Cookie"@);
    is_ascii_chars_encode_utf8("Location"@);
    is_ascii_chars_encode_utf8("Set-Cookie"@);
    is_ascii_chars_encode_utf8("Transfer-Encoding"@);
    is_ascii_chars_encode_utf8("Connection"@);
    let sc = "Set-Cookie".spec_bytes();
    let co = "Connection".spec_bytes();
    assert(sc[0] == 83u8);
    assert(co[0] == 67u8);
    assert(crate::bytes::ascii_lower(sc[0]) != crate::bytes::ascii_lower(co[0]));
}

/// The cookie text of a valid session value holds no line break.
proof fn lemma_session_cookie_plain(s: Seq<char>)
    requires
        valid_cookie_value(encode_utf8(s)),
    ensures
        !has_line_break(encode_utf8(session_cookie_text(s))),
{
    reveal_strlit("session");
    reveal_strlit("=");
    reveal_strlit(";");
    reveal_strlit("Path=");
    reveal_strlit("/");
    reveal_strlit("HttpOnly;");
    reveal_strlit("SameSite=Lax");
    let head = "session"@ + "="@;
    let tail = ";"@ + "Path="@ + "/"@ + ";"@ + "HttpOnly;"@ + "SameSite=Lax"@;
    assert(session_cookie_text(s) =~= head + s + tail);
    lemma_no_line_break(head);
    lemma_no_line_break(tail);
    lemma_encode_concat(head, s);
    lemma_encode_concat(head + s, tail);
    lemma_line_break_concat(encode_utf8(head), encode_utf8(s));
    lemma_line_break_concat(encode_utf8(head) + encode_utf8(s), encode_utf8(tail));
    if has_line_break(encode_utf8(s)) {
        let b = encode_utf8(s);
        let i = choose|i: int| 0 <= i < b.len() && (b[i] == 13 || b[i] == 10);
        assert(crate::http::cookie::cookie_value_byte(b[i]));
    }
}

/// The reply that signs a visitor in (see `session_redirect_spec`).
pub fn session_redirect(session: &str) -> (r: Response)
    ensures
        r@ == session_redirect_spec(session@),
{
    proof {
        lemma_redirect_headers();
    }
    let mut response = match Response::see_other("/resources") {
        Ok(response) => response,
        Err(e) => {
            return Response::text_plain(StatusCode::InternalServerError, e.message().as_str());
        },
    };
    let cookie = match session_cookie(session) {
        Ok(cookie) => cookie,
        Err(e) => {
            let r = Response::text_plain(StatusCode::InternalServerError, e.message().as_str());
            assert(r@ == session_redirect_spec(session@));
            return r;
        },
    };
    proof {
        lemma_session_cookie_plain(session@);
        reveal_strlit("Set-Cookie");
    }
    match response.add_header(crate::constant::SET_COOKIE, cookie.as_str()) {
        Ok(()) => {
            assert(response@ == session_redirect_spec(session@));
            response
        },
        Err(e) => Response::text_plain(StatusCode::InternalServerError, e.message().as_str()),
    }
}

/// The reply to a login form once the credentials have been checked: an
/// unknown name is a 404 `Username not found`, a wrong password a 400
/// `Password incorrect`, and an accepted login signs the visitor in with
/// `session`.
pub fn login_reply(outcome: Login, session: &str) -> (r: Response)
    ensures
        r@ == match outcome {
            Login::UnknownUser => text_reply(StatusCode::NotFound, "Username not found".spec_bytes()),
            Login::WrongPassword => text_reply(
                StatusCode::BadRequest,
                "Password incorrect".spec_bytes(),
            ),
            Login::Accepted(_) => session_redirect_spec(session@),
        },
{
    match outcome {
        Login::UnknownUser => Response::text_plain(StatusCode::NotFound, "Username not found"),
        Login::WrongPassword => Response::text_plain(StatusCode::BadRequest, "Password incorrect"),
        Login::Accepted(_) => session_redirect(session),
    }
}

/// A user named `username` is stored exactly when a first one is found.
proof fn lemma_first_user_exists(users: Seq<User>, username: Seq<u8>)
    ensures
        first_user(users, username) is Some <==> exists|i: int|
            0 <= i < users.len() && encode_utf8(#[trigger] users[i].username@) == username,
    decreases users.len(),
{
    if users.len() > 0 {
        let tail = users.subrange(1, users.len() as int);
        lemma_first_user_exists(tail, username);
        if first_user(users, username) is None {
            assert forall|i: int| 0 <= i < users.len() implies encode_utf8(
                #[trigger] users[i].username@,
            ) != username by {
                if i > 0 {
                    assert(tail[i - 1] == users[i]);
                }
            }
        } else if encode_utf8(users[0].username@) != username {
            let k = choose|k: int|
                0 <= k < tail.len() && encode_utf8(#[trigger] tail[k].username@) == username;
            assert(users[k + 1] == tail[k]);
        }
    }
}

/// The reply that refuses a registration: a 400 `Username exist` when a user
/// of that name is already stored; `None` when the name is free.
pub fn register_reply(users: &[User], username: &str) -> (r: Option<Response>)
    ensures
        r is Some <==> exists|i: int|
            0 <= i < users@.len() && encode_utf8(#[trigger] users@[i].username@)
                == username.spec_bytes(),
        match first_user(users@, username.spec_bytes()) {
            Some(_) => r matches Some(x) && x@ == text_reply(
                StatusCode::BadRequest,
                "Username exist".spec_bytes(),
            ),
            None => r is None,
        },
{
    proof {
        lemma_first_user_exists(users@, username.spec_bytes());
    }
    match find_user(users, username) {
        Some(_) => Some(Response::text_plain(StatusCode::BadRequest, "Username exist")),
        None => None,
    }
}

/// The user a registration stores: the name, the password's SHA-256 digest in
/// lowercase hexadecimal, and the session it signs in with; its id is given
/// when it is stored.
pub fn registered_user(username: String, password: &str, session: String) -> (u: User)
    requires
        crate::sha256::hashable(password.spec_bytes()),
    ensures
        u.id == 0,
        u.username@ == username@,
        encode_utf8(u.password@) == crate::sha256::hex_lower(
            crate::sha256::sha256_spec(password.spec_bytes()),
        ),
        u.session@ == session@,
{
    let hash = crate::util::hash_password(password);
    User::new(username, hash, session)
}

/// A visitor who already holds a `session` cookie is sent to the resource
/// list; `None` for anyone else.
pub fn signed_in_redirect(request: &Request) -> (r: Option<Response>)
    ensures
        match r {
            Some(resp) => cookie_value_spec(request@.headers, "session".spec_bytes()) is Some
                && resp@ == to_resources(),
            None => cookie_value_spec(request@.headers, "session".spec_bytes()) is None,
        },
{
    proof {
        lemma_redirect_headers();
    }
    match request.get_cookie_value("session") {
        None => None,
        Some(_) => match Response::see_other("/resources") {
            Ok(response) => Some(response),
            Err(e) => Some(
                Response::text_plain(StatusCode::InternalServerError, e.message().as_str()),
            ),
        },
    }
}

} // verus!
