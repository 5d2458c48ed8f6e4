//! Static assets: which asset paths may be served, their content types, and
//! the response for each outcome of looking an asset up.
use vstd::prelude::*;
use vstd::string::StringSliceAdditionalSpecFns;
use crate::bytes::{eq_ignore_case, eq_ignore_case_exec, split_bytes};
use crate::constant::MAX_ASSET_SIZE;
use crate::http::response::{Response, ResponseModel, StatusCode};

verus! {

/// A byte an asset path may not hold: `\`, `:`, NUL or `%`.
pub open spec fn forbidden_asset_byte(x: u8) -> bool {
    x == 92 || x == 58 || x == 0 || x == 37
}

/// A path segment that moves within the tree: `.` or `..`.
pub open spec fn dot_segment(s: Seq<u8>) -> bool {
    s == seq![46u8] || s == seq![46u8, 46u8]
}

/// An asset path that stays below the static root: relative, free of
/// forbidden bytes, and with no `.` or `..` segment. The empty path names
/// the root itself.
pub open spec fn valid_asset_part(b: Seq<u8>) -> bool {
    &&& (b.len() > 0 ==> b[0] != 47)
    &&& forall|i: int| 0 <= i < b.len() ==> !forbidden_asset_byte(#[trigger] b[i])
    &&& forall|k: int|
        0 <= k < split_bytes(b, 47).len() ==> !dot_segment(#[trigger] split_bytes(b, 47)[k])
}

fn is_dot_segment(b: &[u8], s: usize, e: usize) -> (r: bool)
    requires
        s <= e <= b@.len(),
    ensures
        r == dot_segment(b@.subrange(s as int, e as int)),
{
    let ghost w = b@.subrange(s as int, e as int);
    assert(seq![46u8].len() == 1 && seq![46u8, 46u8].len() == 2);
    if e - s == 1 {
        let r = b[s] == 46;
        if !r {
            assert(w[0] != 46);
        } else {
            assert(w =~= seq![46u8]);
        }
        r
    } else if e - s == 2 {
        let r = b[s] == 46 && b[s + 1] == 46;
        if !r {
            assert(w[0] != 46 || w[1] != 46);
        } else {
            assert(w =~= seq![46u8, 46u8]);
        }
        r
    } else {
        false
    }
}

/// Whether an asset path may be served (see `valid_asset_part`).
pub fn validate_asset_part(asset_part: &str) -> (r: bool)
    ensures
        r == valid_asset_part(asset_part.spec_bytes()),
{
    let b = asset_part.as_bytes();
    let ghost d = b@;
    let n = b.len();
    if n == 0 {
        proof {
            assert(split_bytes(d, 47) =~= seq![Seq::<u8>::empty()]);
            assert(!dot_segment(Seq::<u8>::empty()));
        }
        return true;
    }
    if b[0] == 47 {
        return false;
    }
    let mut seg: usize = 0;
    let mut j: usize = 0;
    proof {
        assert(d.subrange(0, 0) =~= Seq::<u8>::empty());
    }
    while j < n
        invariant
            d == b@,
            d == asset_part.spec_bytes(),
            n == d.len(),
            n > 0 && d[0] != 47,
            seg <= j <= n,
            forall|i: int| 0 <= i < j ==> !forbidden_asset_byte(#[trigger] d[i]),
            split_bytes(d.subrange(0, j as int), 47).last() == d.subrange(seg as int, j as int),
            forall|k: int|
                0 <= k < split_bytes(d.subrange(0, j as int), 47).len() - 1 ==> !dot_segment(
                    #[trigger] split_bytes(d.subrange(0, j as int), 47)[k],
                ),
        decreases n - j,
    {
        proof {
            crate::bytes::lemma_split_nonempty(d.subrange(0, j as int), 47);
        }
        let x = b[j];
        if x == 92 || x == 58 || x == 0 || x == 37 {
            assert(forbidden_asset_byte(d[j as int]));
            assert(!valid_asset_part(d));
            return false;
        }
        if x == 47 {
            let ghost prev = split_bytes(d.subrange(0, j as int), 47);
            if is_dot_segment(b, seg, j) {
                proof {
                    crate::bytes::lemma_split_at_sep(d, 47, j as int);
                    crate::bytes::lemma_split_prefix_stable(d, 47, j + 1, n as int);
                    assert(d.subrange(0, n as int) =~= d);
                    assert(split_bytes(d, 47)[prev.len() - 1] == prev.last());
                    assert(dot_segment(split_bytes(d, 47)[prev.len() - 1]));
                    assert(!valid_asset_part(d));
                }
                return false;
            }
            proof {
                crate::bytes::lemma_split_at_sep(d, 47, j as int);
            }
            seg = j + 1;
            assert(d.subrange(seg as int, j + 1) =~= Seq::<u8>::empty());
        } else {
            proof {
                crate::bytes::lemma_split_last_extend(d, 47, seg as int, j as int);
            }
        }
        j += 1;
    }
    assert(d.subrange(0, n as int) =~= d);
    proof {
        crate::bytes::lemma_split_nonempty(d, 47);
    }
    if is_dot_segment(b, seg, n) {
        return false;
    }
    proof {
        let ps = split_bytes(d, 47);
        assert forall|k: int| 0 <= k < ps.len() implies !dot_segment(#[trigger] ps[k]) by {
            if k == ps.len() - 1 {
                assert(ps[k] == d.subrange(seg as int, n as int));
            }
        }
    }
    true
}

/// The extension of a file name: what follows its last `.`, unless that dot
/// starts the name (a hidden file without extension) or there is none.
pub open spec fn extension(name: Seq<u8>) -> Option<Seq<u8>>
    decreases name.len(),
{
    if name.len() == 0 {
        None
    } else if name.last() == 46 {
        if name.len() == 1 {
            None
        } else {
            Some(seq![])
        }
    } else {
        match extension(name.drop_last()) {
            Some(e) => Some(e.push(name.last())),
            None => None,
        }
    }
}

/// The content type served for a file name, by its extension (any case).
pub open spec fn content_type_of(name: Seq<u8>) -> Seq<u8> {
    match extension(name) {
        Some(e) => if eq_ignore_case(e, "css".spec_bytes()) {
            "text/css; charset=utf-8".spec_bytes()
        } else if eq_ignore_case(e, "js".spec_bytes()) {
            "text/javascript; charset=utf-8".spec_bytes()
        } else if eq_ignore_case(e, "png".spec_bytes()) {
            "image/png".spec_bytes()
        } else if eq_ignore_case(e, "jpg".spec_bytes()) {
            "image/jpeg".spec_bytes()
        } else if eq_ignore_case(e, "jpeg".spec_bytes()) {
            "image/jpeg".spec_bytes()
        } else if eq_ignore_case(e, "svg".spec_bytes()) {
            "image/svg+xml".spec_bytes()
        } else if eq_ignore_case(e, "woff2".spec_bytes()) {
            "font/woff2".spec_bytes()
        } else {
            "application/octet-stream".spec_bytes()
        },
        None => "application/octet-stream".spec_bytes(),
    }
}

/// Files are served by extension, in any case: `.css` as CSS, `.js` as
/// JavaScript (both UTF-8), `.png` as PNG, `.jpg` and `.jpeg` as JPEG, `.svg`
/// as SVG, `.woff2` as WOFF2, and anything else, or no extension, as bytes.
pub proof fn lemma_content_type_by_extension(name: Seq<u8>)
    ensures
        extension(name) matches Some(e) && eq_ignore_case(e, "css".spec_bytes()) ==> content_type_of(
            name,
        ) == "text/css; charset=utf-8".spec_bytes(),
        extension(name) matches Some(e) && eq_ignore_case(e, "js".spec_bytes()) ==> content_type_of(
            name,
        ) == "text/javascript; charset=utf-8".spec_bytes(),
        extension(name) matches Some(e) && eq_ignore_case(e, "png".spec_bytes()) ==> content_type_of(
            name,
        ) == "image/png".spec_bytes(),
        extension(name) matches Some(e) && (eq_ignore_case(e, "jpg".spec_bytes()) || eq_ignore_case(
            e,
            "jpeg".spec_bytes(),
        )) ==> content_type_of(name) == "image/jpeg".spec_bytes(),
        extension(name) matches Some(e) && eq_ignore_case(e, "svg".spec_bytes()) ==> content_type_of(
            name,
        ) == "image/svg+xml".spec_bytes(),
        extension(name) matches Some(e) && eq_ignore_case(e, "woff2".spec_bytes())
            ==> content_type_of(name) == "font/woff2".spec_bytes(),
        extension(name) is None ==> content_type_of(name) == "application/octet-stream".spec_bytes(),
{
    reveal_strlit("css");
    reveal_strlit("js");
    reveal_strlit("png");
    reveal_strlit("jpg");
    reveal_strlit("jpeg");
    reveal_strlit("svg");
    reveal_strlit("woff2");
    vstd::utf8::is_ascii_chars_encode_utf8("css"@);
    vstd::utf8::is_ascii_chars_encode_utf8("js"@);
    vstd::utf8::is_ascii_chars_encode_utf8("png"@);
    vstd::utf8::is_ascii_chars_encode_utf8("jpg"@);
    vstd::utf8::is_ascii_chars_encode_utf8("jpeg"@);
    vstd::utf8::is_ascii_chars_encode_utf8("svg"@);
    vstd::utf8::is_ascii_chars_encode_utf8("woff2"@);
    assert("css".spec_bytes() =~= seq![99u8, 115u8, 115u8]);
    assert("js".spec_bytes() =~= seq![106u8, 115u8]);
    assert("png".spec_bytes() =~= seq![112u8, 110u8, 103u8]);
    assert("jpg".spec_bytes() =~= seq![106u8, 112u8, 103u8]);
    assert("jpeg".spec_bytes() =~= seq![106u8, 112u8, 101u8, 103u8]);
    assert("svg".spec_bytes() =~= seq![115u8, 118u8, 103u8]);
    assert("woff2".spec_bytes() =~= seq![119u8, 111u8, 102u8, 102u8, 50u8]);
    if let Some(e) = extension(name) {
        if e.len() > 0 {
            // The extensions of one length differ in their first letter, in
            // any case, so at most one of them matches `e`.
            let first = crate::bytes::ascii_lower(e[0]);
            assert(first == crate::bytes::ascii_lower(e[0]));
        }
    }
}

/// Where the extension of `b` starts, if it has one (see `extension`).
fn extension_start(b: &[u8]) -> (r: Option<usize>)
    ensures
        match r {
            Some(k) => k <= b@.len() && extension(b@) == Some(b@.subrange(k as int, b@.len() as int)),
            None => extension(b@) is None,
        },
{
    let n = b.len();
    let mut j = n;
    while j > 0 && b[j - 1] != 46
        invariant
            j <= n == b@.len(),
            forall|i: int| j <= i < n ==> b@[i] != 46,
        decreases j,
    {
        j -= 1;
    }
    proof {
        lemma_extension_after(b@, j as int);
    }
    if j <= 1 {
        None
    } else {
        Some(j)
    }
}

/// With no dot after position `j` and a dot (or the start) just before it,
/// the extension is what follows `j`, unless that dot starts the name.
proof fn lemma_extension_after(b: Seq<u8>, j: int)
    requires
        0 <= j <= b.len(),
        forall|i: int| j <= i < b.len() ==> b[i] != 46,
        j == 0 || b[j - 1] == 46,
    ensures
        extension(b) == if j <= 1 {
            None::<Seq<u8>>
        } else {
            Some(b.subrange(j, b.len() as int))
        },
    decreases b.len() - j,
{
    if b.len() == j {
        if j == 0 {
        } else {
            assert(b.last() == 46);
        }
        assert(b.subrange(j, b.len() as int) =~= Seq::<u8>::empty());
    } else {
        let c = b.drop_last();
        assert forall|i: int| j <= i < c.len() implies c[i] != 46 by {
            assert(c[i] == b[i]);
        }
        lemma_extension_after(c, j);
        if j > 1 {
            assert(c.subrange(j, c.len() as int).push(b.last()) =~= b.subrange(j, b.len() as int));
        }
    }
}

/// The content type served for a file name (see `content_type_of`).
pub fn content_type(file_name: &str) -> (r: &'static str)
    ensures
        r.spec_bytes() == content_type_of(file_name.spec_bytes()),
{
    let b = file_name.as_bytes();
    let k = match extension_start(b) {
        Some(k) => k,
        None => {
            return "application/octet-stream";
        },
    };
    let e = &b[k..b.len()];
    if eq_ignore_case_exec(e, "css".as_bytes()) {
        "text/css; charset=utf-8"
    } else if eq_ignore_case_exec(e, "js".as_bytes()) {
        "text/javascript; charset=utf-8"
    } else if eq_ignore_case_exec(e, "png".as_bytes()) {
        "image/png"
    } else if eq_ignore_case_exec(e, "jpg".as_bytes()) {
        "image/jpeg"
    } else if eq_ignore_case_exec(e, "jpeg".as_bytes()) {
        "image/jpeg"
    } else if eq_ignore_case_exec(e, "svg".as_bytes()) {
        "image/svg+xml"
    } else if eq_ignore_case_exec(e, "woff2".as_bytes()) {
        "font/woff2"
    } else {
        "application/octet-stream"
    }
}

/// How looking an asset up went, step by step: the path was refused; the
/// root could not be resolved; the asset could not be resolved (with
/// whether it does not exist, and the error's text); the asset lies outside the root; its
/// metadata could not be read; it is not a file; it could not be opened or
/// read; or it was read (at most one byte more than the limit), with its
/// file name.
pub enum AssetLookup {
    InvalidPart,
    RootUnresolved,
    AssetUnresolved(bool, String),
    OutsideRoot,
    MetadataFailed(String),
    NotAFile,
    OpenFailed(String),
    ReadFailed(String),
    Read(Vec<u8>, String),
}

/// The response to an asset lookup: a refused path is a 400, a missing or
/// out-of-root asset or a non-file a 404, a root that cannot be resolved a
/// 500 `Internal Server Error`, an asset over the size limit or any other
/// failure a 500 with the error's text, and an asset read whole is a
/// 200 with its bytes and the content type of its name.
pub open spec fn asset_response(o: AssetLookup) -> ResponseModel {
    match o {
        AssetLookup::InvalidPart => plain(StatusCode::BadRequest, "invalid part"@),
        AssetLookup::RootUnresolved => plain(StatusCode::InternalServerError, "Internal Server Error"@),
        AssetLookup::AssetUnresolved(missing, s) => plain(
            if missing {
                StatusCode::NotFound
            } else {
                StatusCode::InternalServerError
            },
            s@,
        ),
        AssetLookup::OutsideRoot => plain(StatusCode::NotFound, "Not Found"@),
        AssetLookup::MetadataFailed(s) => plain(StatusCode::InternalServerError, s@),
        AssetLookup::NotAFile => plain(StatusCode::NotFound, "Not Found"@),
        AssetLookup::OpenFailed(s) => plain(StatusCode::InternalServerError, s@),
        AssetLookup::ReadFailed(s) => plain(StatusCode::InternalServerError, s@),
        AssetLookup::Read(bytes, name) => if bytes@.len() > MAX_ASSET_SIZE {
            plain(StatusCode::InternalServerError, "Limit exceed"@)
        } else {
            ResponseModel {
                status: StatusCode::Okay,
                headers: seq![
                    ("Content-Type".spec_bytes(), content_type_of(vstd::utf8::encode_utf8(name@))),
                ],
                body: bytes@,
            }
        },
    }
}

/// A plain-text response.
pub open spec fn plain(status: StatusCode, text: Seq<char>) -> ResponseModel {
    ResponseModel {
        status,
        headers: seq![("Content-Type".spec_bytes(), "text/plain".spec_bytes())],
        body: vstd::utf8::encode_utf8(text),
    }
}

/// The response to an asset lookup (see `asset_response`).
pub fn serve_lookup(o: AssetLookup) -> (r: Response)
    ensures
        r@ == asset_response(o),
{
    match o {
        AssetLookup::InvalidPart => Response::text_plain(StatusCode::BadRequest, "invalid part"),
        AssetLookup::RootUnresolved => Response::text_plain(
            StatusCode::InternalServerError,
            "Internal Server Error",
        ),
        AssetLookup::AssetUnresolved(missing, s) => Response::text_plain(
            if missing {
                StatusCode::NotFound
            } else {
                StatusCode::InternalServerError
            },
            s.as_str(),
        ),
        AssetLookup::OutsideRoot => Response::text_plain(StatusCode::NotFound, "Not Found"),
        AssetLookup::MetadataFailed(s) => Response::text_plain(StatusCode::InternalServerError, s.as_str()),
        AssetLookup::NotAFile => Response::text_plain(StatusCode::NotFound, "Not Found"),
        AssetLookup::OpenFailed(s) => Response::text_plain(StatusCode::InternalServerError, s.as_str()),
        AssetLookup::ReadFailed(s) => Response::text_plain(StatusCode::InternalServerError, s.as_str()),
        AssetLookup::Read(bytes, name) => {
            if bytes.len() > MAX_ASSET_SIZE {
                Response::text_plain(StatusCode::InternalServerError, "Limit exceed")
            } else {
                let ct = content_type(name.as_str());
                Response::with_content_type(StatusCode::Okay, ct, bytes)
            }
        },
    }
}

} // verus!
