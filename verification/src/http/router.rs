//! Which handler a request goes to.
use vstd::prelude::*;
use vstd::utf8::*;
use vstd::string::StringSliceAdditionalSpecFns;
use crate::http::request::HttpMethod;
use crate::http::response::{Response, ResponseModel, StatusCode};
use crate::text::{lemma_valid_suffix, sub_str};

verus! {

/// Where a request goes: to the static assets (with the asset's path below
/// the mount), refused as a write to the static assets, or to the handler
/// registered for its method and path.
#[derive(Debug, Clone, Copy, PartialEq, Eq)]
pub enum Route<'a> {
    Asset(&'a str),
    AssetMethodNotAllowed,
    Get,
    Post,
}

/// Whether `p` starts `b`.
pub open spec fn starts_with(b: Seq<u8>, p: Seq<u8>) -> bool {
    p.len() <= b.len() && b.subrange(0, p.len() as int) == p
}

/// The asset path of a request path under the static mount `prefix`, if it
/// is under it.
pub open spec fn route_spec(path: Seq<u8>, prefix: Option<Seq<u8>>) -> Option<Seq<u8>> {
    match prefix {
        Some(p) => if starts_with(path, p) {
            Some(path.subrange(p.len() as int, path.len() as int))
        } else {
            None
        },
        None => None,
    }
}

pub open spec fn opt_bytes(o: Option<&str>) -> Option<Seq<u8>> {
    match o {
        Some(p) => Some(p.spec_bytes()),
        None => None,
    }
}

/// Chooses where a request goes: a request under the static mount is for an
/// asset when it is a GET and refused otherwise; any other request goes to
/// the routes of its method.
pub fn route<'a>(method: HttpMethod, path: &'a str, static_prefix: Option<&str>) -> (r: Route<'a>)
    ensures
        match route_spec(path.spec_bytes(), opt_bytes(static_prefix)) {
            Some(asset) => if method == HttpMethod::Get {
                r matches Route::Asset(a) && a.spec_bytes() == asset
            } else {
                r == Route::<'a>::AssetMethodNotAllowed
            },
            None => if method == HttpMethod::Get {
                r == Route::<'a>::Get
            } else {
                r == Route::<'a>::Post
            },
        },
{
    if let Some(prefix) = static_prefix {
        let b = path.as_bytes();
        let p = prefix.as_bytes();
        let n = b.len();
        let k = p.len();
        if k <= n && crate::bytes::bytes_eq_exec(&b[0..k], p) {
            match method {
                HttpMethod::Get => {
                    proof {
                        encode_utf8_valid_utf8(path@);
                        encode_utf8_valid_utf8(prefix@);
                        assert(b@ =~= b@.subrange(0, k as int) + b@.subrange(k as int, n as int));
                        lemma_valid_suffix(b@.subrange(0, k as int), b@.subrange(k as int, n as int));
                    }
                    return Route::Asset(sub_str(b, k, n));
                },
                HttpMethod::Post => {
                    return Route::AssetMethodNotAllowed;
                },
            }
        }
    }
    match method {
        HttpMethod::Get => Route::Get,
        HttpMethod::Post => Route::Post,
    }
}

/// The handlers of one method by path: registering a path again replaces
/// its handler.
pub struct RouteTable<H> {
    entries: Vec<(String, H)>,
}

/// The paths registered in `entries` and their handlers, a later
/// registration of a path replacing an earlier one.
pub open spec fn table_map<H>(entries: Seq<(Seq<u8>, H)>) -> Map<Seq<u8>, H>
    decreases entries.len(),
{
    if entries.len() == 0 {
        Map::empty()
    } else {
        table_map(entries.drop_last()).insert(entries.last().0, entries.last().1)
    }
}

impl<H> RouteTable<H> {
    /// The registrations in order, paths as UTF-8 bytes.
    pub closed spec fn entries_view(&self) -> Seq<(Seq<u8>, H)> {
        Seq::new(self.entries@.len(), |i: int| (encode_utf8(self.entries@[i].0@), self.entries@[i].1))
    }
}

impl<H> View for RouteTable<H> {
    type V = Map<Seq<u8>, H>;

    closed spec fn view(&self) -> Map<Seq<u8>, H> {
        table_map(self.entries_view())
    }
}

impl<H> RouteTable<H> {
    /// No handler yet.
    pub fn new() -> (r: Self)
        ensures
            r@ == Map::<Seq<u8>, H>::empty(),
    {
        let r = RouteTable { entries: Vec::new() };
        assert(r.entries_view() =~= Seq::<(Seq<u8>, H)>::empty());
        r
    }

    /// Registers `handler` for `path`.
    pub fn insert(&mut self, path: &str, handler: H)
        ensures
            final(self)@ == old(self)@.insert(path.spec_bytes(), handler),
    {
        let ghost before = self.entries_view();
        self.entries.push((path.to_owned(), handler));
        assert(self.entries_view().drop_last() =~= before);
    }

    /// The handler registered for `path`, if any.
    pub fn get(&self, path: &str) -> (r: Option<&H>)
        ensures
            match r {
                Some(h) => self@.contains_key(path.spec_bytes()) && *h == self@[path.spec_bytes()],
                None => !self@.contains_key(path.spec_bytes()),
            },
    {
        let mut i: usize = self.entries.len();
        let ghost all = self.entries_view();
        proof {
            lemma_table_split(all, all.len() as int);
            assert(all.subrange(all.len() as int, all.len() as int) =~= Seq::<(Seq<u8>, H)>::empty());
            assert(table_map(Seq::<(Seq<u8>, H)>::empty()) =~= Map::<Seq<u8>, H>::empty());
        }
        while i > 0
            invariant
                i <= self.entries@.len(),
                all == self.entries_view(),
                table_map(all) == table_map(all.subrange(0, i as int)).union_prefer_right(
                    table_map(all.subrange(i as int, all.len() as int)),
                ),
                !table_map(all.subrange(i as int, all.len() as int)).contains_key(path.spec_bytes()),
            decreases i,
        {
            let k = i - 1;
            let ghost pre = all.subrange(0, k as int);
            let ghost suf = all.subrange(k as int, all.len() as int);
            proof {
                lemma_table_split(all, k as int);
            }
            if crate::bytes::bytes_eq_exec(self.entries[k].0.as_str().as_bytes(), path.as_bytes()) {
                proof {
                    assert(all[k as int].0 == path.spec_bytes());
                    lemma_table_split(all, k as int + 1);
                    assert(all.subrange(0, k as int + 1).drop_last() =~= pre);
                }
                return Some(&self.entries[k].1);
            }
            proof {
                lemma_table_split(all, k as int + 1);
                assert(all.subrange(0, k as int + 1).drop_last() =~= pre);
                lemma_table_split(suf, 1);
                assert(suf.subrange(1, suf.len() as int) =~= all.subrange(k + 1, all.len() as int));
                let one = suf.subrange(0, 1);
                assert(one.drop_last() =~= Seq::<(Seq<u8>, H)>::empty());
                assert(table_map(one.drop_last()) =~= Map::<Seq<u8>, H>::empty());
                assert(one.last() == all[k as int]);
                assert(all[k as int].0 != path.spec_bytes());
                assert(!table_map(one).contains_key(path.spec_bytes()));
            }
            i = k;
        }
        assert(all.subrange(0, 0) =~= Seq::<(Seq<u8>, H)>::empty());
        None
    }
}

/// The handlers of a prefix and of the rest of a list of registrations
/// together give those of the whole, later ones winning.
proof fn lemma_table_split<H>(all: Seq<(Seq<u8>, H)>, k: int)
    requires
        0 <= k <= all.len(),
    ensures
        table_map(all) == table_map(all.subrange(0, k)).union_prefer_right(
            table_map(all.subrange(k, all.len() as int)),
        ),
    decreases all.len() - k,
{
    if k == all.len() {
        assert(all.subrange(0, k) =~= all);
        assert(table_map(all.subrange(k, all.len() as int)) =~= Map::<Seq<u8>, H>::empty());
        assert(table_map(all).union_prefer_right(Map::<Seq<u8>, H>::empty()) =~= table_map(all));
    } else {
        lemma_table_split(all.drop_last(), k);
        if k == all.len() - 1 {
            assert(all.subrange(0, k) =~= all.drop_last());
            let suf = all.subrange(k, all.len() as int);
            assert(suf.drop_last() =~= Seq::<(Seq<u8>, H)>::empty());
            assert(table_map(suf.drop_last()) =~= Map::<Seq<u8>, H>::empty());
            assert(table_map(all) =~= table_map(all.drop_last()).union_prefer_right(table_map(suf)));
        } else {
            let suf = all.subrange(k, all.len() as int);
            assert(all.drop_last().subrange(0, k) =~= all.subrange(0, k));
            assert(all.drop_last().subrange(k, all.len() - 1) =~= suf.drop_last());
            assert(suf.last() == all.last());
            assert(table_map(all) =~= table_map(all.subrange(0, k)).union_prefer_right(
                table_map(suf),
            ));
        }
    }
}

/// Where a request goes once the handlers are known: to the handler
/// registered for its method and path, to the static asset it asks for, or
/// straight to a response (a write to the static assets: an empty 405; no
/// handler: the 404 page).
pub enum Dispatch<'a, 'b, H> {
    Handler(&'b H),
    Asset(&'a str),
    Respond(Response),
}

/// The 404 page.
pub open spec fn not_found_page() -> ResponseModel {
    ResponseModel {
        status: StatusCode::NotFound,
        headers: seq![("Content-Type".spec_bytes(), "text/html; charset=utf-8".spec_bytes())],
        body: "<h1>404 Not Found</h1>".spec_bytes(),
    }
}

/// Dispatches a request (see `route`): under the static mount a GET goes to
/// its asset and anything else gets an empty 405; otherwise the handler
/// registered for the method and path is chosen, or the 404 page.
pub fn dispatch<'a, 'b, H>(
    get_routes: &'b RouteTable<H>,
    post_routes: &'b RouteTable<H>,
    method: HttpMethod,
    path: &'a str,
    static_prefix: Option<&str>,
) -> (r: Dispatch<'a, 'b, H>)
    ensures
        match route_spec(path.spec_bytes(), opt_bytes(static_prefix)) {
            Some(asset) => if method == HttpMethod::Get {
                r matches Dispatch::Asset(a) && a.spec_bytes() == asset
            } else {
                r matches Dispatch::Respond(resp) && resp@ == (ResponseModel {
                    status: StatusCode::MethodNotAllowed,
                    headers: Seq::<(Seq<u8>, Seq<u8>)>::empty(),
                    body: Seq::<u8>::empty(),
                })
            },
            None => {
                let table = if method == HttpMethod::Get {
                    get_routes@
                } else {
                    post_routes@
                };
                if table.contains_key(path.spec_bytes()) {
                    r matches Dispatch::Handler(h) && *h == table[path.spec_bytes()]
                } else {
                    r matches Dispatch::Respond(resp) && resp@ == not_found_page()
                }
            },
        },
{
    let table = match route(method, path, static_prefix) {
        Route::Asset(a) => {
            return Dispatch::Asset(a);
        },
        Route::AssetMethodNotAllowed => {
            return Dispatch::Respond(Response::new(StatusCode::MethodNotAllowed, Vec::new()));
        },
        Route::Get => get_routes,
        Route::Post => post_routes,
    };
    match table.get(path) {
        Some(h) => Dispatch::Handler(h),
        None => Dispatch::Respond(Response::html(StatusCode::NotFound, "<h1>404 Not Found</h1>")),
    }
}

} // verus!
