//! What the server answers: the listing, the size of an image, and a range
//! of its bytes.

use crate::cache::{CacheView, ChunkCache, IoError};
use crate::catalog::{entry_named, has_name, Catalog, CatalogEntry, EntryView};
use crate::scan::{catalog_of, root_failed, scan, skipped_of, ScanError, Skipped, Visit};
use crate::range::{
    header_text, lemma_range_within_file, parse, parse_spec, unsatisfied_range,
    unsatisfied_range_text, ByteRange, Range, RangeError,
};
use crate::reader::{
    agrees, faithful, keeps_others, lemma_loads_span, loads_chunks, read, reliable, settled,
};
use crate::text::{decimal_text, to_decimal};
use vstd::prelude::*;
use vstd::string::*;
use vstd::utf8::encode_utf8;

verus! {

/// One header of an answer.
#[derive(Debug, PartialEq, Eq)]
pub struct Header {
    pub name: String,
    pub value: String,
}

/// A header as a value.
pub struct HeaderView {
    pub name: Seq<char>,
    pub value: Seq<char>,
}

impl View for Header {
    type V = HeaderView;

    open spec fn view(&self) -> HeaderView {
        HeaderView { name: self.name@, value: self.value@ }
    }
}

/// An answer: its status, its headers in order, and its body.
#[derive(Debug, PartialEq, Eq)]
pub struct Response {
    pub status: u16,
    pub headers: Vec<Header>,
    pub body: Vec<u8>,
}

/// An answer as a value.
pub struct ResponseView {
    pub status: u16,
    pub headers: Seq<HeaderView>,
    pub body: Seq<u8>,
}

impl View for Response {
    type V = ResponseView;

    open spec fn view(&self) -> ResponseView {
        ResponseView {
            status: self.status,
            headers: self.headers@.map_values(|h: Header| h@),
            body: self.body@,
        }
    }
}

/// The answer that is a status and nothing else.
pub open spec fn bare(status: u16) -> ResponseView {
    ResponseView { status, headers: Seq::empty(), body: Seq::empty() }
}

/// The two headers that every answer about an image carries.
pub open spec fn image_headers() -> Seq<HeaderView> {
    seq![
        HeaderView { name: "Accept-Ranges"@, value: "bytes"@ },
        HeaderView { name: "Content-Type"@, value: "application/octet-stream"@ },
    ]
}

/// The answer that tells the size of an image.
pub open spec fn info_of(size: u64) -> ResponseView {
    ResponseView {
        status: 200,
        headers: image_headers().push(
            HeaderView { name: "Content-Length"@, value: decimal_text(size as nat) },
        ),
        body: Seq::empty(),
    }
}

/// The answer to a request for the size of the image of a name: its size,
/// or status 404 where the catalog has no such name.
pub open spec fn info_answer(v: Seq<EntryView>, name: Seq<char>) -> ResponseView {
    if has_name(v, name) {
        info_of(entry_named(v, name).size)
    } else {
        bare(404)
    }
}

/// The answer that carries the bytes of a range.
pub open spec fn partial_of(range: ByteRange, body: Seq<u8>) -> ResponseView {
    ResponseView {
        status: 206,
        headers: image_headers().push(
            HeaderView { name: "Content-Range"@, value: range.content_range_text() },
        ),
        body,
    }
}

/// The answer to a range that an image of `total` bytes cannot satisfy.
pub open spec fn unsatisfiable_of(total: u64) -> ResponseView {
    ResponseView {
        status: 416,
        headers: seq![HeaderView { name: "Content-Range"@, value: unsatisfied_range_text(total) }],
        body: Seq::empty(),
    }
}

/// What the answer to a failed read says.
pub open spec fn failure_note(e: IoError) -> Seq<char> {
    match e {
        IoError::Stale => "image changed on disk: rescan needed"@,
        IoError::Transient => "read failed"@,
    }
}

/// The answer to a read that failed.
pub open spec fn failure_of(e: IoError) -> ResponseView {
    ResponseView { status: 500, headers: Seq::empty(), body: encode_utf8(failure_note(e)) }
}

/// The listing: each name behind a slash, one to a line.
pub open spec fn listing_text(names: Seq<Seq<char>>) -> Seq<char>
    decreases names.len(),
{
    if names.len() == 0 {
        Seq::empty()
    } else if names.len() == 1 {
        seq!['/'] + names[0]
    } else {
        listing_text(names.drop_last()) + seq!['\n', '/'] + names.last()
    }
}

/// The answer that lists the catalog.
pub open spec fn listing_of(names: Seq<Seq<char>>) -> ResponseView {
    ResponseView {
        status: 200,
        headers: seq![HeaderView { name: "Content-Type"@, value: "text/plain; charset=utf-8"@ }],
        body: encode_utf8(listing_text(names)),
    }
}

fn header(name: &str, value: String) -> (res: Header)
    ensures
        res@ == (HeaderView { name: name@, value: value@ }),
{
    Header { name: name.to_owned(), value }
}

/// An answer that is a status and nothing else.
pub fn bare_response(status: u16) -> (res: Response)
    ensures
        res@ == bare(status),
{
    let res = Response { status, headers: Vec::new(), body: Vec::new() };
    assert(res@.headers =~= Seq::<HeaderView>::empty());
    res
}

fn image_header_list() -> (res: Vec<Header>)
    ensures
        res@.map_values(|h: Header| h@) == image_headers(),
{
    let mut headers: Vec<Header> = Vec::new();
    headers.push(header("Accept-Ranges", "bytes".to_owned()));
    headers.push(header("Content-Type", "application/octet-stream".to_owned()));
    assert(headers@.map_values(|h: Header| h@) =~= image_headers());
    headers
}

/// Lists the catalog: status 200 and, as text, every name behind a slash,
/// one to a line, in the catalog's order.
pub fn list_umds(catalog: &Catalog) -> (res: Response)
    requires
        catalog.wf(),
    ensures
        res@ == listing_of(catalog.names()),
{
    let mut text = String::new();
    let mut i: usize = 0;
    let n = catalog.len();
    assert(catalog.names().take(0) =~= Seq::<Seq<char>>::empty());
    while i < n
        invariant
            n == catalog@.len(),
            0 <= i <= n,
            text@ == listing_text(catalog.names().take(i as int)),
        decreases n - i,
    {
        proof {
            let next = catalog.names().take(i + 1);
            assert(next.drop_last() =~= catalog.names().take(i as int));
            assert(next.last() == catalog@[i as int].name);
            assert(next[0] == catalog.names()[0]);
        }
        if i > 0 {
            text.push('\n');
        }
        text.push('/');
        match catalog.entry_at(i) {
            Some(entry) => {
                text.append(entry.name.as_str());
            },
            None => {},
        }
        assert(text@ =~= listing_text(catalog.names().take(i + 1)));
        i += 1;
    }
    assert(catalog.names().take(n as int) =~= catalog.names());
    let mut headers: Vec<Header> = Vec::new();
    headers.push(header("Content-Type", "text/plain; charset=utf-8".to_owned()));
    let res = Response { status: 200, headers, body: text.as_str().as_bytes_vec() };
    assert(res@.headers =~= listing_of(catalog.names()).headers);
    res
}

/// Tells the size of an image: status 200 with the size as the content
/// length, or status 404 where the catalog has no such name.
pub fn info_umd(catalog: &Catalog, umd_name: &str) -> (res: Response)
    requires
        catalog.wf(),
    ensures
        res@ == info_answer(catalog@, umd_name@),
{
    match catalog.lookup(umd_name) {
        Some(entry) => {
            let mut headers = image_header_list();
            headers.push(header("Content-Length", to_decimal(entry.size)));
            let res = Response { status: 200, headers, body: Vec::new() };
            assert(res@.headers =~= info_of(entry.size).headers);
            res
        },
        None => bare_response(404),
    }
}

/// The text of a header value that may be absent.
pub open spec fn text_of(value: Option<&str>) -> Option<Seq<char>> {
    match value {
        Some(s) => Some(s@),
        None => None,
    }
}

/// What a request for a range of an image comes to before anything is
/// read: the range to serve, or the answer that ends the request. An
/// unknown name is answered 404. A known name without a `Range` header, or
/// with a malformed one, is answered 400: whole images are not served. A
/// range that the image cannot satisfy is answered 416 with the size of
/// the image. A range too long to hold in memory is answered as a failed
/// read.
pub open spec fn requested(v: Seq<EntryView>, name: Seq<char>, range: Option<Seq<char>>) -> Result<
    ByteRange,
    ResponseView,
> {
    if !has_name(v, name) {
        Err(bare(404))
    } else {
        let size = entry_named(v, name).size;
        match range {
            None => Err(bare(400)),
            Some(header) => match parse_spec(header, size) {
                Err(RangeError::Malformed) => Err(bare(400)),
                Err(RangeError::Unsatisfiable) => Err(unsatisfiable_of(size)),
                Ok(r) => if r.spec_len() > usize::MAX {
                    Err(failure_of(IoError::Transient))
                } else {
                    Ok(r)
                },
            },
        }
    }
}

/// What holds of the answer to a request for a range of an image, and of
/// the cache before and after it.
///
/// What is answered without reading is what `requested` says, and the
/// cache is then left alone. A range that is served is answered 206 with
/// the range in `Content-Range` and as many bytes as the range has, or 500
/// where the read failed. It does not fail with a loader that is reliable
/// and a cache that is settled. With a loader that is faithful to the
/// image's file and a cache that agrees with it, the bytes are those of
/// the range in the file, and the cache agrees with the file afterwards.
/// The cache's standing with the files of other images is kept.
pub open spec fn answers_read<L: Fn(&CatalogEntry, u64, u64) -> Result<Vec<u8>, IoError>>(
    v: Seq<EntryView>,
    before: CacheView,
    after: CacheView,
    name: Seq<char>,
    range: Option<Seq<char>>,
    loader: &L,
    res: ResponseView,
) -> bool {
    match requested(v, name, range) {
        Err(answer) => res == answer && after == before,
        Ok(r) => {
            let e = entry_named(v, name);
            &&& res == failure_of(IoError::Stale) || res == failure_of(IoError::Transient) || (res
                == partial_of(r, res.body) && res.body.len() == r.spec_len())
            &&& keeps_others(before, after, e.id)
            &&& reliable(loader, e) && settled(before, e.id, e.size) ==> res.status == 206 && settled(
                after,
                e.id,
                e.size,
            )
            &&& forall|source: Seq<u8>| #[trigger]
                faithful(loader, e, source) && source.len() == e.size && agrees(before, e.id, source)
                    ==> agrees(after, e.id, source) && (res.status == 206 ==> res.body
                    == source.subrange(r.start as int, r.end + 1))
        },
    }
}

/// True when the loader may be asked for each chunk of each image of the
/// catalog.
pub open spec fn loads_images<L: Fn(&CatalogEntry, u64, u64) -> Result<Vec<u8>, IoError>>(
    loader: &L,
    v: Seq<EntryView>,
    chunk_size: u64,
) -> bool {
    forall|e: &CatalogEntry| #[trigger]
        has_name(v, e@.name) && entry_named(v, e@.name) == e@ ==> loads_chunks(loader, e, chunk_size)
}

/// A request for a range that lies within an image is answered with that
/// range in `Content-Range` and with exactly the bytes of the range in the
/// image's file, whenever the loader is reliable and faithful to the file
/// and the cache is settled for the image and agrees with the file.
pub proof fn lemma_range_is_served<L: Fn(&CatalogEntry, u64, u64) -> Result<Vec<u8>, IoError>>(
    v: Seq<EntryView>,
    before: CacheView,
    after: CacheView,
    name: Seq<char>,
    start: u64,
    end: u64,
    loader: &L,
    res: ResponseView,
    source: Seq<u8>,
)
    requires
        has_name(v, name),
        start <= end < entry_named(v, name).size,
        end - start < usize::MAX,
        source.len() == entry_named(v, name).size,
        reliable(loader, entry_named(v, name)),
        faithful(loader, entry_named(v, name), source),
        settled(before, entry_named(v, name).id, entry_named(v, name).size),
        agrees(before, entry_named(v, name).id, source),
        answers_read(
            v,
            before,
            after,
            name,
            Some(header_text(Range { start: Some(start), end: Some(end) })),
            loader,
            res,
        ),
    ensures
        res == partial_of(
            ByteRange { start, end, total: entry_named(v, name).size },
            source.subrange(start as int, end + 1),
        ),
        res.body.len() == end - start + 1,
{
    lemma_range_within_file(start, end, entry_named(v, name).size);
}

fn failure_response(e: IoError) -> (res: Response)
    ensures
        res@ == failure_of(e),
{
    let note = match e {
        IoError::Stale => "image changed on disk: rescan needed",
        IoError::Transient => "read failed",
    };
    let res = Response { status: 500, headers: Vec::new(), body: note.as_bytes_vec() };
    assert(res@.headers =~= Seq::<HeaderView>::empty());
    res
}

/// Answers a request for a range of an image: looks the name up, reads the
/// `Range` header against the size of the image, and reads the bytes
/// through the cache.
pub fn read_umd<L: Fn(&CatalogEntry, u64, u64) -> Result<Vec<u8>, IoError>>(
    catalog: &Catalog,
    cache: &mut ChunkCache,
    umd_name: &str,
    range: Option<&str>,
    loader: &L,
) -> (res: Response)
    requires
        catalog.wf(),
        old(cache).wf(),
        loads_images(loader, catalog@, old(cache)@.chunk_size),
    ensures
        final(cache).wf(),
        final(cache)@.chunk_size == old(cache)@.chunk_size,
        final(cache)@.budget == old(cache)@.budget,
        answers_read(catalog@, old(cache)@, final(cache)@, umd_name@, text_of(range), loader, res@),
{
    let entry = match catalog.lookup(umd_name) {
        Some(entry) => entry,
        None => {
            return bare_response(404);
        },
    };
    let header_value = match range {
        Some(value) => value,
        None => {
            return bare_response(400);
        },
    };
    let r = match parse(header_value, entry.size) {
        Ok(r) => r,
        Err(RangeError::Malformed) => {
            return bare_response(400);
        },
        Err(RangeError::Unsatisfiable) => {
            let mut headers: Vec<Header> = Vec::new();
            headers.push(header("Content-Range", unsatisfied_range(entry.size)));
            let res = Response { status: 416, headers, body: Vec::new() };
            assert(res@.headers =~= unsatisfiable_of(entry.size).headers);
            return res;
        },
    };
    if r.len() > usize::MAX as u64 {
        return failure_response(IoError::Transient);
    }
    proof {
        cache.lemma_wf();
        lemma_loads_span(loader, entry, cache@.chunk_size, r);
    }
    match read(cache, entry, &r, loader) {
        Ok(body) => {
            let mut headers = image_header_list();
            headers.push(header("Content-Range", r.content_range()));
            let res = Response { status: 206, headers, body };
            assert(res@.headers =~= partial_of(r, res@.body).headers);
            res
        },
        Err(e) => failure_response(e),
    }
}

/// What a server holds: the catalog in force and the chunk cache.
pub struct Server {
    pub catalog: Catalog,
    pub cache: ChunkCache,
}

impl Server {
    /// Both parts are well formed.
    pub open spec fn wf(&self) -> bool {
        self.catalog.wf() && self.cache.wf()
    }

    /// A server with a catalog and a cache.
    pub fn new(catalog: Catalog, cache: ChunkCache) -> (res: Server)
        requires
            catalog.wf(),
            cache.wf(),
        ensures
            res.wf(),
            res.catalog == catalog,
            res.cache == cache,
    {
        Server { catalog, cache }
    }

    /// Scans a new walk of the root. Where the scan gives a catalog, that
    /// catalog replaces the one in force, whole, and the cache forgets its
    /// chunks, whose keys spoke of the old catalog; the steps that were
    /// passed over are returned. Where the scan fails, the catalog in
    /// force and the cache stay as they are.
    pub fn rescan(&mut self, visits: &Vec<Visit>, filter: &Vec<String>) -> (res: Result<
        Vec<Skipped>,
        ScanError,
    >)
        requires
            old(self).wf(),
        ensures
            final(self).wf(),
            match res {
                Ok(skipped) => {
                    &&& !root_failed(visits@)
                    &&& catalog_of(final(self).catalog@, visits@, filter@)
                    &&& skipped@ == skipped_of(visits@, filter@)
                    &&& final(self).cache@ == old(self).cache@.cleared()
                },
                Err(e) => root_failed(visits@) && *final(self) == *old(self),
            },
    {
        match scan(visits, filter) {
            Ok(scanned) => {
                self.catalog = scanned.catalog;
                self.cache.clear();
                Ok(scanned.skipped)
            },
            Err(e) => Err(e),
        }
    }
}

} // verus!
