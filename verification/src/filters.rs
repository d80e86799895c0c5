//! Routing: which handler answers a request.

use crate::cache::{ChunkCache, IoError};
use crate::catalog::{Catalog, CatalogEntry};
use crate::rumd::{
    answers_read, bare, bare_response, info_answer, info_umd, list_umds, listing_of,
    loads_images, read_umd, text_of, Response, Server,
};
use vstd::prelude::*;
use vstd::string::*;

verus! {

/// The method of a request, as far as the routes tell methods apart.
#[derive(Clone, Copy, Debug, PartialEq, Eq, Structural)]
pub enum Method {
    Get,
    Head,
    Other,
}

/// A request: its method, its path as it was sent, and the value of its
/// `Range` header where it has one.
#[derive(Debug)]
pub struct Request {
    pub method: Method,
    pub path: String,
    pub range: Option<String>,
}

/// True of the path of the listing: a single slash.
pub open spec fn is_root(path: Seq<char>) -> bool {
    path == seq!['/']
}

/// The name that a path asks for: what follows its leading slash, where
/// something does.
pub open spec fn name_in(path: Seq<char>) -> Option<Seq<char>> {
    if path.len() > 1 && path[0] == '/' {
        Some(path.skip(1))
    } else {
        None
    }
}

/// The value of the `Range` header of a request as a text.
pub open spec fn range_of(request: &Request) -> Option<Seq<char>> {
    match request.range {
        Some(value) => Some(value@),
        None => None,
    }
}

/// Tells whether a path is that of the listing.
fn path_is_root(path: &str) -> (res: bool)
    ensures
        res == is_root(path@),
{
    if path.unicode_len() == 1 && path.get_char(0) == '/' {
        assert(path@ =~= seq!['/']);
        true
    } else {
        false
    }
}

/// Takes the name out of a path.
fn path_name(path: &str) -> (res: Option<&str>)
    ensures
        text_of(res) == name_in(path@),
{
    let n = path.unicode_len();
    if n > 1 && path.get_char(0) == '/' {
        Some(path.substring_char(1, n))
    } else {
        None
    }
}

/// `GET /`: the listing. `None` where the request is not for this route.
pub fn umd_list(catalog: &Catalog, request: &Request) -> (res: Option<Response>)
    requires
        catalog.wf(),
    ensures
        request.method == Method::Get && is_root(request.path@) ==> (res matches Some(r) && r@
            == listing_of(catalog.names())),
        !(request.method == Method::Get && is_root(request.path@)) ==> res is None,
{
    match request.method {
        Method::Get => {
            if path_is_root(request.path.as_str()) {
                Some(list_umds(catalog))
            } else {
                None
            }
        },
        _ => None,
    }
}

/// `HEAD /name`: the size of an image. `None` where the request is not for
/// this route.
pub fn umd_info(catalog: &Catalog, request: &Request) -> (res: Option<Response>)
    requires
        catalog.wf(),
    ensures
        match name_in(request.path@) {
            Some(name) if request.method == Method::Head => res matches Some(r) && r@
                == info_answer(catalog@, name),
            _ => res is None,
        },
{
    match request.method {
        Method::Head => {
            match path_name(request.path.as_str()) {
                Some(name) => Some(info_umd(catalog, name)),
                None => None,
            }
        },
        _ => None,
    }
}

/// `GET /name`: a range of an image. `None` where the request is not for
/// this route, in which case the cache is left alone.
pub fn umd_read<L: Fn(&CatalogEntry, u64, u64) -> Result<Vec<u8>, IoError>>(
    catalog: &Catalog,
    cache: &mut ChunkCache,
    request: &Request,
    loader: &L,
) -> (res: Option<Response>)
    requires
        catalog.wf(),
        old(cache).wf(),
        loads_images(loader, catalog@, old(cache)@.chunk_size),
    ensures
        final(cache).wf(),
        final(cache)@.chunk_size == old(cache)@.chunk_size,
        final(cache)@.budget == old(cache)@.budget,
        match name_in(request.path@) {
            Some(name) if request.method == Method::Get => res matches Some(r) && answers_read(
                catalog@,
                old(cache)@,
                final(cache)@,
                name,
                range_of(request),
                loader,
                r@,
            ),
            _ => res is None && final(cache)@ == old(cache)@,
        },
{
    match request.method {
        Method::Get => {
            match path_name(request.path.as_str()) {
                Some(name) => {
                    let range = match &request.range {
                        Some(value) => Some(value.as_str()),
                        None => None,
                    };
                    Some(read_umd(catalog, cache, name, range, loader))
                },
                None => None,
            }
        },
        _ => None,
    }
}

/// Answers a request: by the first of the three routes that it is for;
/// with status 405 where its path is one that a route knows, under another
/// method; and with status 404 otherwise.
pub fn rumd<L: Fn(&CatalogEntry, u64, u64) -> Result<Vec<u8>, IoError>>(
    server: &mut Server,
    request: &Request,
    loader: &L,
) -> (res: Response)
    requires
        old(server).wf(),
        loads_images(loader, old(server).catalog@, old(server).cache@.chunk_size),
    ensures
        final(server).wf(),
        final(server).catalog == old(server).catalog,
        final(server).cache@.chunk_size == old(server).cache@.chunk_size,
        final(server).cache@.budget == old(server).cache@.budget,
        match (request.method, name_in(request.path@)) {
            (Method::Get, Some(name)) => answers_read(
                old(server).catalog@,
                old(server).cache@,
                final(server).cache@,
                name,
                range_of(request),
                loader,
                res@,
            ),
            (Method::Head, Some(name)) => {
                &&& final(server).cache@ == old(server).cache@
                &&& res@ == info_answer(old(server).catalog@, name)
            },
            (Method::Other, Some(name)) => {
                &&& final(server).cache@ == old(server).cache@
                &&& res@ == bare(405)
            },
            (method, None) => {
                &&& final(server).cache@ == old(server).cache@
                &&& res@ == if !is_root(request.path@) {
                    bare(404)
                } else if method == Method::Get {
                    listing_of(old(server).catalog.names())
                } else {
                    bare(405)
                }
            },
        },
{
    if let Some(res) = umd_list(&server.catalog, request) {
        return res;
    }
    if let Some(res) = umd_info(&server.catalog, request) {
        return res;
    }
    if let Some(res) = umd_read(&server.catalog, &mut server.cache, request, loader) {
        return res;
    }
    let known = path_is_root(request.path.as_str()) || path_name(request.path.as_str()).is_some();
    if known {
        bare_response(405)
    } else {
        bare_response(404)
    }
}

} // verus!
