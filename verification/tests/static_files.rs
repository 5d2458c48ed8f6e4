use life::constant::{MAX_ASSET_SIZE, MAX_REQUEST_BYTES};
use life::http::request::Request;
use life::http::response::{Response, StatusCode};
use life::http::router::{dispatch, Dispatch, RouteTable};
use life::http::static_files::{content_type, serve_lookup, validate_asset_part, AssetLookup};

#[test]
fn asset_paths_that_stay_below_the_root_are_accepted() {
    for part in ["", "app.css", "img/logo.png", "a.b.c.js", "..hidden", "dir/.well-known"] {
        assert!(validate_asset_part(part), "{part}");
    }
}

#[test]
fn traversal_and_platform_escape_forms_are_rejected() {
    for part in [
        "/etc/passwd",
        "..",
        "../secret",
        "img/../../secret",
        "./app.css",
        "img/.",
        "a\\b",
        "c:x",
        "nul\0byte",
        "%2e%2e/secret",
    ] {
        assert!(!validate_asset_part(part), "{part:?}");
    }
}

#[test]
fn content_type_extensions_are_case_insensitive() {
    assert_eq!(content_type("STYLE.CSS"), "text/css; charset=utf-8");
    assert_eq!(content_type("app.Js"), "text/javascript; charset=utf-8");
    assert_eq!(content_type("logo.png"), "image/png");
    assert_eq!(content_type("photo.JPG"), "image/jpeg");
    assert_eq!(content_type("photo.jpeg"), "image/jpeg");
    assert_eq!(content_type("icon.svg"), "image/svg+xml");
    assert_eq!(content_type("font.woff2"), "font/woff2");
}

#[test]
fn unknown_and_absent_extensions_are_octet_streams() {
    for name in ["data.bin", "README", ".css", "archive.tar.gz", "trailing."] {
        assert_eq!(content_type(name), "application/octet-stream", "{name}");
    }
}

#[test]
fn lookup_outcomes_map_to_statuses() {
    let wire = |outcome| String::from_utf8(serve_lookup(outcome).to_bytes()).unwrap();
    assert!(wire(AssetLookup::InvalidPart).starts_with("HTTP/1.1 400 Bad Request\r\n"));
    assert!(wire(AssetLookup::NotAFile).starts_with("HTTP/1.1 404 Not Found\r\n"));
    assert!(wire(AssetLookup::OutsideRoot).ends_with("\r\n\r\nNot Found"));
    assert!(wire(AssetLookup::AssetUnresolved(true, "gone".into())).starts_with("HTTP/1.1 404"));
    assert!(wire(AssetLookup::AssetUnresolved(false, "denied".into())).starts_with("HTTP/1.1 500"));
    let served = wire(AssetLookup::Read(b"body{}".to_vec(), "site.css".into()));
    assert!(served.starts_with("HTTP/1.1 200 OK\r\n"));
    assert!(served.contains("Content-Type: text/css; charset=utf-8\r\n"));
    assert!(served.ends_with("\r\n\r\nbody{}"));
}

#[test]
fn one_byte_over_the_limit_returns_500_without_partial_file_contents() {
    let bytes = vec![b'x'; life::constant::MAX_ASSET_SIZE + 1];
    let response = serve_lookup(AssetLookup::Read(bytes, "big.bin".into()));
    let wire = String::from_utf8(response.to_bytes()).unwrap();
    assert!(wire.starts_with("HTTP/1.1 500 Internal Server Error\r\n"));
    assert!(wire.ends_with("\r\n\r\nLimit exceed"));
    let _ = StatusCode::Okay;
}

type NoHandler = fn();

/// Where a request for `target` goes under the mount `/static/`: the asset
/// path, or the response given without looking anything up.
fn route_static(method: &str, target: &str) -> Result<String, Vec<u8>> {
    let raw = format!("{method} {target} HTTP/1.1\r\nHost: localhost\r\nContent-Length: 0\r\n\r\n");
    let request = Request::parse(raw.as_bytes()).expect("parse static request");
    let get_routes: RouteTable<NoHandler> = RouteTable::new();
    let post_routes: RouteTable<NoHandler> = RouteTable::new();
    match dispatch(
        &get_routes,
        &post_routes,
        *request.method(),
        request.path(),
        Some("/static/"),
    ) {
        Dispatch::Asset(part) => Ok(part.to_owned()),
        Dispatch::Respond(response) => Err(response.to_bytes()),
        Dispatch::Handler(_) => unreachable!(),
    }
}

/// The response to an asset path whose lookup, once the path is accepted,
/// comes to `found`.
fn serve(part: &str, found: AssetLookup) -> Vec<u8> {
    let lookup = if validate_asset_part(part) {
        found
    } else {
        AssetLookup::InvalidPart
    };
    serve_lookup(lookup).to_bytes()
}

fn read(bytes: &[u8], name: &str) -> AssetLookup {
    AssetLookup::Read(bytes.to_vec(), name.to_owned())
}

// Decode only the headers: the body deliberately may contain invalid UTF-8.
fn parts(wire: &[u8]) -> (&str, &[u8]) {
    let end = wire
        .windows(4)
        .position(|bytes| bytes == b"\r\n\r\n")
        .unwrap();
    (std::str::from_utf8(&wire[..end]).unwrap(), &wire[end + 4..])
}

fn header<'a>(headers: &'a str, name: &str) -> &'a str {
    let values: Vec<_> = headers
        .lines()
        .skip(1)
        .filter_map(|line| {
            let (key, value) = line.split_once(':')?;
            if key.eq_ignore_ascii_case(name) {
                Some(value.trim())
            } else {
                None
            }
        })
        .collect();
    assert_eq!(values.len(), 1, "expected one {name}: {headers}");
    values[0]
}

fn assert_status(wire: &[u8], expected: &str) {
    let (headers, body) = parts(wire);
    assert_eq!(
        headers.lines().next().unwrap(),
        format!("HTTP/1.1 {expected}")
    );
    assert_eq!(header(headers, "Content-Length"), body.len().to_string());
}

fn assert_asset(wire: &[u8], content_type: &str, expected: &[u8]) {
    assert_status(wire, "200 OK");
    let (headers, body) = parts(wire);
    assert_eq!(header(headers, "Content-Type"), content_type);
    assert_eq!(body, expected);
}

#[test]
fn css_javascript_images_and_fonts_have_exact_bytes_and_metadata() {
    for (name, mime, bytes) in [
        (
            "app.css",
            "text/css; charset=utf-8",
            "/* tiếng Việt */\nbody {}".as_bytes(),
        ),
        (
            "app.js",
            "text/javascript; charset=utf-8",
            b"const template = '{{ value }}';".as_slice(),
        ),
        (
            "pixel.png",
            "image/png",
            b"\x89PNG\r\n\x1a\n\0\xff".as_slice(),
        ),
        ("photo.jpg", "image/jpeg", b"\xff\xd8\0\xff\xd9".as_slice()),
        ("photo.jpeg", "image/jpeg", b"\xff\xd8\0\xff\xd9".as_slice()),
        ("icon.svg", "image/svg+xml", b"<svg></svg>".as_slice()),
        ("font.woff2", "font/woff2", b"wOF2\0\xff\x80".as_slice()),
    ] {
        let part = route_static("GET", &format!("/static/{name}")).unwrap();
        assert_asset(&serve(&part, read(bytes, name)), mime, bytes);
    }
}

#[test]
fn unknown_and_absent_extensions_preserve_every_byte_value() {
    let bytes: Vec<u8> = (0..=255).collect();
    for name in ["data.custom", "LICENSE"] {
        let part = route_static("GET", &format!("/static/{name}")).unwrap();
        assert_asset(&serve(&part, read(&bytes, name)), "application/octet-stream", &bytes);
    }
}

#[test]
fn nested_assets_and_queries_use_the_same_file() {
    let plain_part = route_static("GET", "/static/css/components/card.css").unwrap();
    let query_part =
        route_static("GET", "/static/css/components/card.css?v=1&path=../../secret").unwrap();
    assert_eq!(plain_part, "css/components/card.css");
    assert_eq!(query_part, plain_part);
    let plain = serve(&plain_part, read(b".card {}", "card.css"));
    let query = serve(&query_part, read(b".card {}", "card.css"));
    assert_asset(&plain, "text/css; charset=utf-8", b".card {}");
    assert_eq!(query, plain);
}

#[test]
fn files_added_after_mounting_need_no_new_route() {
    let part = route_static("GET", "/static/new.css").unwrap();
    let missing = AssetLookup::AssetUnresolved(true, "No such file or directory".to_owned());
    assert_status(&serve(&part, missing), "404 Not Found");
    let part = route_static("GET", "/static/new.css").unwrap();
    assert_asset(
        &serve(&part, read(b"new {}", "new.css")),
        "text/css; charset=utf-8",
        b"new {}",
    );
}

#[test]
fn static_root_directory_returns_404() {
    let part = route_static("GET", "/static/").unwrap();
    assert_eq!(part, "");
    assert_status(&serve(&part, AssetLookup::NotAFile), "404 Not Found");
}

#[test]
fn path_beneath_a_regular_file_returns_404() {
    let part = route_static("GET", "/static/app.css/child.css").unwrap();
    let beneath = AssetLookup::AssetUnresolved(true, "Not a directory".to_owned());
    assert_status(&serve(&part, beneath), "404 Not Found");
}

#[test]
fn missing_files_and_directories_return_404_even_with_an_index() {
    for (path, found) in [
        (
            "/static/missing.css",
            AssetLookup::AssetUnresolved(true, "No such file or directory".to_owned()),
        ),
        (
            "/static/missing/file.css",
            AssetLookup::AssetUnresolved(true, "No such file or directory".to_owned()),
        ),
        ("/static/folder", AssetLookup::NotAFile),
        ("/static/folder/", AssetLookup::NotAFile),
    ] {
        let part = route_static("GET", path).unwrap();
        assert_status(&serve(&part, found), "404 Not Found");
    }
}

#[test]
fn post_does_not_serve_an_existing_asset() {
    let wire = route_static("POST", "/static/private.css").unwrap_err();
    assert_status(&wire, "405 Method Not Allowed");
    assert!(parts(&wire).1.is_empty());
}

#[test]
fn other_methods_are_rejected_before_routing() {
    for method in ["HEAD", "PUT", "DELETE", "PATCH", "OPTIONS"] {
        let raw = format!("{method} /static/app.css HTTP/1.1\r\nHost: localhost\r\n\r\n");
        assert!(Request::parse(raw.as_bytes()).is_err(), "{method}");
    }
}

#[test]
fn encoded_and_malformed_paths_follow_the_reject_all_percent_policy() {
    for part in [
        "%2e%2e/secret",
        "%2E%2E%2Fsecret",
        "%252e%252e%252fsecret",
        "%2fetc/passwd",
        "..%5csecret",
        "app.css%00",
        "%",
        "%2",
        "%GG",
        "%61pp.css",
    ] {
        let routed = route_static("GET", &format!("/static/{part}")).unwrap();
        assert_status(&serve(&routed, read(b"body {}", "app.css")), "400 Bad Request");
    }
}

#[test]
fn harmless_dots_in_filenames_are_allowed() {
    let part = route_static("GET", "/static/app..min.css").unwrap();
    assert_asset(
        &serve(&part, read(b"body {}", "app..min.css")),
        "text/css; charset=utf-8",
        b"body {}",
    );
}

#[test]
fn file_and_directory_symlinks_cannot_escape_to_a_sibling_with_the_same_prefix() {
    for path in ["/static/link.css", "/static/linked-dir/secret.css"] {
        let part = route_static("GET", path).unwrap();
        let wire = serve(&part, AssetLookup::OutsideRoot);
        assert_status(&wire, "404 Not Found");
        assert_ne!(parts(&wire).1, b"outside secret");
    }
}

#[test]
fn symlink_to_an_asset_inside_the_root_is_allowed_and_broken_link_is_404() {
    let part = route_static("GET", "/static/alias.css").unwrap();
    assert_asset(
        &serve(&part, read(b"body {}", "app.css")),
        "text/css; charset=utf-8",
        b"body {}",
    );
    let part = route_static("GET", "/static/broken.css").unwrap();
    let broken = AssetLookup::AssetUnresolved(true, "No such file or directory".to_owned());
    assert_status(&serve(&part, broken), "404 Not Found");
}

#[test]
fn empty_file_has_zero_content_length() {
    let part = route_static("GET", "/static/empty.css").unwrap();
    assert_asset(&serve(&part, read(b"", "empty.css")), "text/css; charset=utf-8", b"");
}

#[test]
fn file_exactly_at_the_limit_is_served() {
    let bytes: Vec<u8> = (0..MAX_ASSET_SIZE).map(|i| (i % 256) as u8).collect();
    let part = route_static("GET", "/static/limit.bin").unwrap();
    assert_asset(
        &serve(&part, read(&bytes, "limit.bin")),
        "application/octet-stream",
        &bytes,
    );
}

#[test]
fn missing_static_root_maps_io_failure_to_500() {
    let response: Response = serve_lookup(AssetLookup::RootUnresolved);
    let wire = response.to_bytes();
    assert_status(&wire, "500 Internal Server Error");
    assert_eq!(parts(&wire).1, b"Internal Server Error");
}

#[test]
fn request_limit_sized_path_with_late_traversal_has_bounded_allocation() {
    let prefix = "GET /static/";
    let suffix = " HTTP/1.1\r\nHost: localhost\r\n\r\n";
    let path_len = MAX_REQUEST_BYTES - prefix.len() - suffix.len();
    let mut path = "a/".repeat((path_len - 3) / 2);
    path.push_str(&"a".repeat(path_len - 3 - path.len()));
    path.push_str("/..");
    let raw = format!("{prefix}{path}{suffix}");
    assert_eq!(raw.len(), MAX_REQUEST_BYTES);
    let request = Request::parse(raw.as_bytes()).unwrap();
    let part = request.path().strip_prefix("/static/").unwrap();
    assert_status(&serve(part, read(b"", "a")), "400 Bad Request");
}
