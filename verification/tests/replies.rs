use life::app::login::controller::{
    login_reply, register_reply, registered_user, session_redirect, signed_in_redirect, Login,
};
use life::app::resource::model::Resource;
use life::app::login::model::User;
use life::app::resource::controller::{
    created_number, deleted_id, requested_listing, resource_page, resources_redirect,
    store_error_reply,
    updated_fields, Listing,
};
use life::http::request::Request;
use life::storage::error::StoreError;

fn text(bytes: Vec<u8>) -> String {
    String::from_utf8(bytes).unwrap()
}

#[test]
fn session_redirect_sets_cookie_and_location() {
    let wire = text(session_redirect("abc-123").to_bytes());
    assert_eq!(
        wire,
        "HTTP/1.1 303 See Other\r\n\
Location: /resources\r\n\
Set-Cookie: session=abc-123;Path=/;HttpOnly;SameSite=Lax\r\n\
Content-Length: 0\r\n\
Connection: close\r\n\
\r\n"
    );
}

#[test]
fn session_redirect_refuses_invalid_session_value() {
    let wire = text(session_redirect("bad;value").to_bytes());
    assert!(wire.starts_with("HTTP/1.1 500 Internal Server Error\r\n"));
    assert!(!wire.contains("Set-Cookie"));
}

#[test]
fn login_reply_for_unknown_user_is_404() {
    let wire = text(login_reply(Login::UnknownUser, "").to_bytes());
    assert!(wire.starts_with("HTTP/1.1 404 Not Found\r\n"));
    assert!(wire.ends_with("\r\n\r\nUsername not found"));
}

#[test]
fn login_reply_for_wrong_password_is_400() {
    let wire = text(login_reply(Login::WrongPassword, "").to_bytes());
    assert!(wire.starts_with("HTTP/1.1 400 Bad Request\r\n"));
    assert!(wire.ends_with("\r\n\r\nPassword incorrect"));
}

#[test]
fn login_reply_for_accepted_login_signs_in() {
    let wire = text(login_reply(Login::Accepted(7), "s1").to_bytes());
    assert!(wire.starts_with("HTTP/1.1 303 See Other\r\n"));
    assert!(wire.contains("Set-Cookie: session=s1;Path=/;HttpOnly;SameSite=Lax\r\n"));
}

#[test]
fn signed_in_visitor_is_redirected() {
    let raw = b"GET /login HTTP/1.1\r\nCookie: session=xyz\r\n\r\n";
    let request = Request::parse(raw).unwrap();
    let wire = text(signed_in_redirect(&request).unwrap().to_bytes());
    assert!(wire.starts_with("HTTP/1.1 303 See Other\r\nLocation: /resources\r\n"));
}

#[test]
fn visitor_without_session_is_not_redirected() {
    let raw = b"GET /login HTTP/1.1\r\nHost: x\r\n\r\n";
    let request = Request::parse(raw).unwrap();
    assert!(signed_in_redirect(&request).is_none());
}

#[test]
fn listing_reads_the_id_parameter() {
    let all = Request::parse(b"GET /resources HTTP/1.1\r\nHost: x\r\n\r\n").unwrap();
    assert_eq!(requested_listing(all.query()), Listing::All);
    let one = Request::parse(b"GET /resources?id=12 HTTP/1.1\r\nHost: x\r\n\r\n").unwrap();
    assert_eq!(requested_listing(one.query()), Listing::One(12));
    let zero = Request::parse(b"GET /resources?id=0 HTTP/1.1\r\nHost: x\r\n\r\n").unwrap();
    assert_eq!(requested_listing(zero.query()), Listing::Invalid);
    let word = Request::parse(b"GET /resources?id=ab HTTP/1.1\r\nHost: x\r\n\r\n").unwrap();
    assert_eq!(requested_listing(word.query()), Listing::Invalid);
}

#[test]
fn missing_resource_is_404_other_errors_500() {
    let wire = text(store_error_reply(&StoreError::StorageIndexIdNotFound).to_bytes());
    assert!(wire.starts_with("HTTP/1.1 404 Not Found\r\n"));
    assert!(wire.ends_with("Resource not found"));
    let wire = text(store_error_reply(&StoreError::IdNotMatch).to_bytes());
    assert!(wire.starts_with("HTTP/1.1 500 Internal Server Error\r\n"));
    assert!(wire.ends_with("Id not match"));
}

#[test]
fn resources_redirect_points_to_the_list() {
    let wire = text(resources_redirect().to_bytes());
    assert!(wire.starts_with("HTTP/1.1 303 See Other\r\nLocation: /resources\r\n"));
}

#[test]
fn registration_is_refused_for_a_taken_name_only() {
    let users = vec![
        User::new("ann".to_owned(), "h1".to_owned(), "s1".to_owned()),
        User::new("bob".to_owned(), "h2".to_owned(), "s2".to_owned()),
    ];
    let wire = text(register_reply(&users, "bob").unwrap().to_bytes());
    assert!(wire.starts_with("HTTP/1.1 400 Bad Request\r\n"));
    assert!(wire.ends_with("\r\n\r\nUsername exist"));
    assert!(register_reply(&users, "Bob").is_none());
    assert!(register_reply(&[], "ann").is_none());
}

#[test]
fn created_number_defaults_to_zero() {
    assert_eq!(created_number("42"), 42);
    assert_eq!(created_number("+7"), 7);
    assert_eq!(created_number("4294967296"), 0);
    assert_eq!(created_number("x"), 0);
}

#[test]
fn deleted_id_must_read_as_a_number() {
    assert_eq!(deleted_id("12").ok(), Some(12));
    let wire = text(deleted_id("twelve").unwrap_err().to_bytes());
    assert!(wire.starts_with("HTTP/1.1 400 Bad Request\r\n"));
    assert!(wire.ends_with("\r\n\r\nInvalid resourse id"));
}

#[test]
fn updated_fields_read_the_id_first() {
    assert_eq!(updated_fields("3", "10").ok(), Some((3, 10)));
    let wire = text(updated_fields("x", "y").unwrap_err().to_bytes());
    assert!(wire.starts_with("HTTP/1.1 400 Bad Request\r\n"));
    assert!(wire.contains("Content-Type: text/html; charset=utf-8\r\n"));
    assert!(wire.ends_with("\r\n\r\nError parsing id"));
    let wire = text(updated_fields("3", "y").unwrap_err().to_bytes());
    assert!(wire.ends_with("\r\n\r\nError parsing number"));
}

#[test]
fn resource_page_escapes_names_and_notes_an_empty_list() {
    let page = resource_page(&[Resource { id: 7, name: "<b>&".to_owned(), number: 42 }]);
    assert_eq!(
        page,
        "<!doctype html><html><body><h1>Resources</h1>\
<form method=\"GET\" action=\"/resources\"><input name=\"id\"><button>Find</button></form>\
<p>Total: 1</p>\
<article class=\"resource-card\"><h3>&lt;b&gt;&amp;</h3><p>#7 &middot; 42</p></article>\
</body></html>"
    );
    let empty = resource_page(&[]);
    assert!(empty.contains("<p>Total: 0</p>"));
    assert!(empty.contains("<p class=\"empty-state\">No resources yet. Create one using the form.</p>"));
    assert!(!empty.contains("resource-card"));
}

#[test]
fn registered_user_stores_the_password_digest() {
    let user = registered_user("ann".to_owned(), "abc", "s1".to_owned());
    assert_eq!(user.id, 0);
    assert_eq!(user.username, "ann");
    assert_eq!(
        user.password,
        "ba7816bf8f01cfea414140de5dae2223b00361a396177a9cb410ff61f20015ad"
    );
    assert_eq!(user.session, "s1");
}
