//! The range reader: the bytes of a range, gathered chunk by chunk through
//! the cache.

use crate::cache::{
    given_up, lemma_begun, lemma_make_room, lemma_place_found, outcome, place,
    BeginView, CacheView, ChunkCache, ChunkKey, IoError,
};
use crate::catalog::{CatalogEntry, EntryView};
use crate::range::ByteRange;
use vstd::prelude::*;

verus! {

/// Where a chunk lies in its file.
#[derive(Clone, Copy, Debug, PartialEq, Eq, Structural)]
pub struct Extent {
    pub offset: u64,
    pub len: u64,
}

/// Where the chunk with this number begins.
pub open spec fn chunk_start(chunk: int, chunk_size: int) -> int {
    chunk * chunk_size
}

/// The length of the chunk with this number in a file of `total` bytes: a
/// whole chunk, or what is left of the file.
pub open spec fn chunk_len(chunk: int, chunk_size: int, total: int) -> int {
    if total - chunk_start(chunk, chunk_size) < chunk_size {
        total - chunk_start(chunk, chunk_size)
    } else {
        chunk_size
    }
}

/// The bytes of the chunk with this number in a file that holds `source`.
pub open spec fn chunk_bytes(source: Seq<u8>, chunk: int, chunk_size: int) -> Seq<u8> {
    source.subrange(
        chunk_start(chunk, chunk_size),
        chunk_start(chunk, chunk_size) + chunk_len(chunk, chunk_size, source.len() as int),
    )
}

/// The chunk that holds a position begins at or before it and ends after
/// it.
pub proof fn lemma_chunk_of(pos: int, chunk_size: int)
    requires
        0 <= pos,
        0 < chunk_size,
    ensures
        0 <= pos / chunk_size,
        chunk_start(pos / chunk_size, chunk_size) == pos - pos % chunk_size,
        chunk_start(pos / chunk_size, chunk_size) <= pos < chunk_start(pos / chunk_size, chunk_size)
            + chunk_size,
{
    assert(0 <= pos / chunk_size && (pos / chunk_size) * chunk_size == pos - pos % chunk_size && 0
        <= pos % chunk_size < chunk_size) by (nonlinear_arith)
        requires
            0 <= pos,
            0 < chunk_size,
    ;
}

/// Tells which chunk holds a position of a file, and where that chunk
/// lies.
pub fn chunk_at(pos: u64, chunk_size: u64, total: u64) -> (res: (u64, Extent))
    requires
        chunk_size > 0,
        pos < total,
    ensures
        res.0 == pos / chunk_size,
        res.1.offset == chunk_start(res.0 as int, chunk_size as int),
        res.1.len == chunk_len(res.0 as int, chunk_size as int, total as int),
        res.1.offset <= pos < res.1.offset + res.1.len,
{
    proof {
        lemma_chunk_of(pos as int, chunk_size as int);
    }
    let chunk = pos / chunk_size;
    let offset = pos - pos % chunk_size;
    let len = if total - offset < chunk_size {
        total - offset
    } else {
        chunk_size
    };
    (chunk, Extent { offset, len })
}

/// What a load is taken for: the bytes where they have the length that was
/// asked for, and else a sign that the file is not what the catalog says.
pub open spec fn checked(loaded: Result<Seq<u8>, IoError>, len: u64) -> Result<Seq<u8>, IoError> {
    match loaded {
        Ok(bytes) => if bytes.len() == len {
            Ok(bytes)
        } else {
            Err(IoError::Stale)
        },
        Err(e) => Err(e),
    }
}

/// Holds a load to the length that was asked for. Any other number of
/// bytes means that the file is no longer what it was when the catalog was
/// made.
pub fn check_length(loaded: Result<Vec<u8>, IoError>, len: u64) -> (res: Result<Vec<u8>, IoError>)
    ensures
        outcome(res) == checked(outcome(loaded), len),
{
    match loaded {
        Ok(bytes) => {
            if bytes.len() as u64 == len {
                Ok(bytes)
            } else {
                Err(IoError::Stale)
            }
        },
        Err(e) => Err(e),
    }
}

/// Appends the bytes of `bytes` from `from` up to `upto`.
fn append_part(out: &mut Vec<u8>, bytes: &Vec<u8>, from: usize, upto: usize)
    requires
        from <= upto <= bytes@.len(),
    ensures
        final(out)@ == old(out)@ + bytes@.subrange(from as int, upto as int),
{
    out.extend_from_slice(&bytes.as_slice()[from..upto]);
    assert(out@ =~= old(out)@ + bytes@.subrange(from as int, upto as int));
}

/// True when every chunk that the cache holds of this entry, and that has
/// the length of that chunk in a file holding `source`, holds the bytes of
/// that chunk.
pub open spec fn agrees(view: CacheView, entry: u64, source: Seq<u8>) -> bool {
    forall|i: int|
        0 <= i < view.chunks.len() && (#[trigger] view.chunks[i]).key.entry == entry
            && view.chunks[i].bytes.len() == chunk_len(
            view.chunks[i].key.chunk as int,
            view.chunk_size as int,
            source.len() as int,
        ) ==> view.chunks[i].bytes == chunk_bytes(
            source,
            view.chunks[i].key.chunk as int,
            view.chunk_size as int,
        )
}

/// True when the loader, asked for a stretch of the entry's file, which
/// holds `source`, hands back that stretch whenever it hands back as many
/// bytes as were asked for.
pub open spec fn faithful<L: Fn(&CatalogEntry, u64, u64) -> Result<Vec<u8>, IoError>>(
    loader: &L,
    entry: EntryView,
    source: Seq<u8>,
) -> bool {
    forall|e: &CatalogEntry, offset: u64, len: u64, raw: Result<Vec<u8>, IoError>| #[trigger]
        loader.ensures((e, offset, len), raw) && e@ == entry ==> (raw matches Ok(bytes) ==> (
        bytes@.len() == len && offset + len <= source.len() ==> bytes@ == source.subrange(
            offset as int,
            offset + len,
        )))
}

/// True when the loader may be asked for each chunk of the entry's file:
/// for the stretch of the file that the chunk covers.
pub open spec fn loads_chunks<L: Fn(&CatalogEntry, u64, u64) -> Result<Vec<u8>, IoError>>(
    loader: &L,
    entry: &CatalogEntry,
    chunk_size: u64,
) -> bool {
    forall|chunk: u64|
        #![trigger chunk_start(chunk as int, chunk_size as int)]
        chunk_start(chunk as int, chunk_size as int) < entry.size ==> loader.requires(
            (
                entry,
                chunk_start(chunk as int, chunk_size as int) as u64,
                chunk_len(chunk as int, chunk_size as int, entry.size as int) as u64,
            ),
        )
}

/// True when the loader may be asked for each chunk of the entry's file
/// that overlaps the range: for the stretch of the file that the chunk
/// covers.
pub open spec fn loads_span<L: Fn(&CatalogEntry, u64, u64) -> Result<Vec<u8>, IoError>>(
    loader: &L,
    entry: &CatalogEntry,
    chunk_size: u64,
    range: ByteRange,
) -> bool {
    forall|chunk: u64|
        #![trigger chunk_start(chunk as int, chunk_size as int)]
        range.start / chunk_size <= chunk <= range.end / chunk_size ==> loader.requires(
            (
                entry,
                chunk_start(chunk as int, chunk_size as int) as u64,
                chunk_len(chunk as int, chunk_size as int, entry.size as int) as u64,
            ),
        )
}

/// A loader that may be asked for each chunk of a file may be asked for
/// those that overlap a range of it.
pub proof fn lemma_loads_span<L: Fn(&CatalogEntry, u64, u64) -> Result<Vec<u8>, IoError>>(
    loader: &L,
    entry: &CatalogEntry,
    chunk_size: u64,
    range: ByteRange,
)
    requires
        chunk_size > 0,
        range.wf(),
        range.total == entry.size,
        loads_chunks(loader, entry, chunk_size),
    ensures
        loads_span(loader, entry, chunk_size, range),
{
    assert forall|chunk: u64|
        #![trigger chunk_start(chunk as int, chunk_size as int)]
        range.start / chunk_size <= chunk <= range.end / chunk_size implies loader.requires(
        (
            entry,
            chunk_start(chunk as int, chunk_size as int) as u64,
            chunk_len(chunk as int, chunk_size as int, entry.size as int) as u64,
        ),
    ) by {
        lemma_chunk_of(range.end as int, chunk_size as int);
        vstd::arithmetic::mul::lemma_mul_inequality(
            chunk as int,
            range.end as int / chunk_size as int,
            chunk_size as int,
        );
    }
}

/// True when the loader, asked for a stretch of the entry's file, always
/// hands back as many bytes as were asked for.
pub open spec fn reliable<L: Fn(&CatalogEntry, u64, u64) -> Result<Vec<u8>, IoError>>(
    loader: &L,
    entry: EntryView,
) -> bool {
    forall|e: &CatalogEntry, offset: u64, len: u64, raw: Result<Vec<u8>, IoError>| #[trigger]
        loader.ensures((e, offset, len), raw) && e@ == entry ==> (raw matches Ok(bytes) && bytes@.len()
            == len)
}

/// True when every chunk that the cache holds of this entry has the length
/// of that chunk in a file of `total` bytes, and no chunk of the entry is
/// being loaded.
pub open spec fn settled(view: CacheView, entry: u64, total: u64) -> bool {
    &&& forall|i: int|
        0 <= i < view.chunks.len() && (#[trigger] view.chunks[i]).key.entry == entry
            ==> view.chunks[i].bytes.len() == chunk_len(
            view.chunks[i].key.chunk as int,
            view.chunk_size as int,
            total as int,
        )
    &&& forall|key: ChunkKey| #[trigger] view.loading.contains(key) ==> key.entry != entry
}

/// Asking for a chunk that is held leaves the cache settled.
pub proof fn lemma_settled_touched(view: CacheView, key: ChunkKey, entry: u64, total: u64)
    requires
        view.wf(),
        view.holds(key),
        settled(view, entry, total),
    ensures
        settled(view.begun(key), entry, total),
{
    let at = place(view.chunks, key);
    lemma_place_found(view.chunks, key);
    let after = view.touched(key).chunks;
    assert forall|i: int| 0 <= i < after.len() implies #[trigger] after[i] == view.chunks[if i
        == after.len() - 1 {
        at
    } else if i < at {
        i
    } else {
        i + 1
    }] by {}
}

/// Loading a chunk of the right length, or failing to, leaves the cache
/// settled.
pub proof fn lemma_settled_loaded(
    view: CacheView,
    key: ChunkKey,
    loaded: Result<Seq<u8>, IoError>,
    entry: u64,
    total: u64,
)
    requires
        view.wf(),
        view.answer(key) is Load,
        settled(view, entry, total),
        key.entry == entry,
        loaded matches Ok(bytes) ==> bytes.len() == chunk_len(
            key.chunk as int,
            view.chunk_size as int,
            total as int,
        ),
    ensures
        settled(view.begun(key).finished(key, loaded), entry, total),
{
    let loading = view.begun(key);
    let done = loading.finished(key, loaded);
    if loading.keeps(key, loaded) {
        let bytes = loaded->Ok_0;
        let room = (view.budget - bytes.len()) as nat;
        lemma_make_room(view.chunks, room);
        let n = given_up(view.chunks, room) as int;
        let rest = view.chunks.skip(n);
        assert forall|i: int| 0 <= i < done.chunks.len() - 1 implies #[trigger] done.chunks[i]
            == view.chunks[i + n] by {
            assert(done.chunks[i] == rest[i]);
        }
    }
}

/// True when, from `before` to `after`, the cache has lost nothing of its
/// standing with the files of the entries other than `entry`: where it
/// agreed with such a file it still does, and where it was settled for
/// such an entry it still is.
pub open spec fn keeps_others(before: CacheView, after: CacheView, entry: u64) -> bool {
    &&& forall|other: u64, source: Seq<u8>| #[trigger]
        agrees(before, other, source) && other != entry ==> agrees(after, other, source)
    &&& forall|other: u64, total: u64| #[trigger]
        settled(before, other, total) && other != entry ==> settled(after, other, total)
}

/// Asking for a chunk of one entry, and loading it, leaves the cache
/// settled for every other entry.
pub proof fn lemma_settled_other(
    view: CacheView,
    key: ChunkKey,
    loaded: Result<Seq<u8>, IoError>,
    other: u64,
    total: u64,
)
    requires
        view.wf(),
        settled(view, other, total),
        key.entry != other,
    ensures
        settled(view.begun(key), other, total),
        view.answer(key) is Load ==> settled(view.begun(key).finished(key, loaded), other, total),
{
    lemma_place_found(view.chunks, key);
    if view.holds(key) {
        let at = place(view.chunks, key);
        let after = view.touched(key).chunks;
        assert forall|i: int| 0 <= i < after.len() implies #[trigger] after[i] == view.chunks[if i
            == after.len() - 1 {
            at
        } else if i < at {
            i
        } else {
            i + 1
        }] by {}
    } else if !view.loading.contains(key) {
        let loading = view.begun(key);
        let done = loading.finished(key, loaded);
        if loading.keeps(key, loaded) {
            let bytes = loaded->Ok_0;
            let room = (view.budget - bytes.len()) as nat;
            lemma_make_room(view.chunks, room);
            let n = given_up(view.chunks, room) as int;
            let rest = view.chunks.skip(n);
            assert forall|i: int| 0 <= i < done.chunks.len() - 1 implies #[trigger] done.chunks[i]
                == view.chunks[i + n] by {
                assert(done.chunks[i] == rest[i]);
            }
        }
    }
}

/// Asking for a chunk leaves the cache in agreement with the file.
pub proof fn lemma_agrees_begun(view: CacheView, key: ChunkKey, entry: u64, source: Seq<u8>)
    requires
        view.wf(),
        agrees(view, entry, source),
    ensures
        agrees(view.begun(key), entry, source),
{
    if view.holds(key) {
        let at = place(view.chunks, key);
        lemma_place_found(view.chunks, key);
        let after = view.touched(key).chunks;
        assert forall|i: int| 0 <= i < after.len() implies #[trigger] after[i] == view.chunks[if i
            == after.len() - 1 {
            at
        } else if i < at {
            i
        } else {
            i + 1
        }] by {}
    }
}

/// Reporting a load leaves the cache in agreement with the file, where
/// what was loaded agrees with it.
pub proof fn lemma_agrees_finished(
    view: CacheView,
    key: ChunkKey,
    loaded: Result<Seq<u8>, IoError>,
    entry: u64,
    source: Seq<u8>,
)
    requires
        view.wf(),
        agrees(view, entry, source),
        loaded matches Ok(bytes) ==> key.entry != entry || bytes == chunk_bytes(
            source,
            key.chunk as int,
            view.chunk_size as int,
        ),
    ensures
        agrees(view.finished(key, loaded), entry, source),
{
    if view.keeps(key, loaded) {
        let bytes = loaded->Ok_0;
        let room = (view.budget - bytes.len()) as nat;
        lemma_make_room(view.chunks, room);
        let n = given_up(view.chunks, room) as int;
        let rest = view.chunks.skip(n);
        let after = view.finished(key, loaded).chunks;
        assert forall|i: int| 0 <= i < after.len() - 1 implies #[trigger] after[i] == view.chunks[i
            + n] by {
            assert(after[i] == rest[i]);
        }
    }
}

/// True when `after` and `got` are the cache and the outcome of obtaining
/// the chunk of `key`, `len` bytes long, from the cache `before`, where a
/// load, if one was made, ended with `raw`.
pub open spec fn fetched(
    before: CacheView,
    after: CacheView,
    key: ChunkKey,
    len: u64,
    got: Result<Seq<u8>, IoError>,
    raw: Result<Seq<u8>, IoError>,
) -> bool {
    match before.answer(key) {
        BeginView::Hit(held) => got == checked(Ok(held), len) && after == before.begun(key),
        BeginView::Wait => got == Err::<Seq<u8>, IoError>(IoError::Transient) && after == before,
        BeginView::Load => got == checked(raw, len) && after == before.begun(key).finished(
            key,
            checked(raw, len),
        ),
    }
}

/// Obtaining a chunk of one entry keeps the cache's standing with the
/// other entries. It keeps the cache settled for the entry itself, and
/// succeeds, where the chunk has that length in the file and a load, if one
/// was made, gave that many bytes.
proof fn lemma_fetched(
    before: CacheView,
    after: CacheView,
    key: ChunkKey,
    len: u64,
    got: Result<Seq<u8>, IoError>,
    raw: Result<Seq<u8>, IoError>,
)
    requires
        before.wf(),
        fetched(before, after, key, len, got, raw),
    ensures
        keeps_others(before, after, key.entry),
        forall|total: u64| #[trigger]
            settled(before, key.entry, total) && len == chunk_len(
                key.chunk as int,
                before.chunk_size as int,
                total as int,
            ) && (before.answer(key) is Load ==> (raw matches Ok(bytes) && bytes.len() == len))
                ==> settled(after, key.entry, total) && got is Ok,
{
    lemma_begun(before, key);
    lemma_place_found(before.chunks, key);
    assert forall|other: u64, source: Seq<u8>| #[trigger]
        agrees(before, other, source) && other != key.entry implies agrees(after, other, source) by {
        lemma_agrees_begun(before, key, other, source);
        if before.answer(key) is Load {
            lemma_agrees_finished(before.begun(key), key, checked(raw, len), other, source);
        }
    }
    assert forall|other: u64, total: u64| #[trigger]
        settled(before, other, total) && other != key.entry implies settled(after, other, total) by {
        lemma_settled_other(before, key, checked(raw, len), other, total);
    }
    assert forall|total: u64| #[trigger]
        settled(before, key.entry, total) && len == chunk_len(
            key.chunk as int,
            before.chunk_size as int,
            total as int,
        ) && (before.answer(key) is Load ==> (raw matches Ok(bytes) && bytes.len() == len))
        implies settled(after, key.entry, total) && got is Ok by {
        match before.answer(key) {
            BeginView::Hit(held) => {
                assert(before.chunks[place(before.chunks, key)].key == key);
                lemma_settled_touched(before, key, key.entry, total);
            },
            BeginView::Wait => {},
            BeginView::Load => {
                lemma_settled_loaded(before, key, checked(raw, len), key.entry, total);
            },
        }
    }
}

/// Obtaining a chunk keeps the cache in agreement with the entry's file,
/// and gives the bytes of the chunk in that file, where a load, if one was
/// made and gave as many bytes as the chunk has, gave those bytes.
proof fn lemma_fetched_agrees(
    before: CacheView,
    after: CacheView,
    key: ChunkKey,
    len: u64,
    got: Result<Seq<u8>, IoError>,
    raw: Result<Seq<u8>, IoError>,
    source: Seq<u8>,
)
    requires
        before.wf(),
        fetched(before, after, key, len, got, raw),
        agrees(before, key.entry, source),
        len == chunk_len(key.chunk as int, before.chunk_size as int, source.len() as int),
        before.answer(key) is Load ==> (raw matches Ok(bytes) ==> (bytes.len() == len ==> bytes
            == chunk_bytes(source, key.chunk as int, before.chunk_size as int))),
    ensures
        agrees(after, key.entry, source),
        got matches Ok(bytes) ==> bytes == chunk_bytes(
            source,
            key.chunk as int,
            before.chunk_size as int,
        ),
{
    lemma_begun(before, key);
    lemma_place_found(before.chunks, key);
    lemma_agrees_begun(before, key, key.entry, source);
    match before.answer(key) {
        BeginView::Hit(held) => {
            assert(before.chunks[place(before.chunks, key)].key == key);
        },
        BeginView::Wait => {},
        BeginView::Load => {
            lemma_agrees_finished(before.begun(key), key, checked(raw, len), key.entry, source);
        },
    }
}

/// Obtains one chunk through the cache, and holds it to the length that
/// the chunk has in the file.
fn fetch<L: Fn(&CatalogEntry, u64, u64) -> Result<Vec<u8>, IoError>>(
    cache: &mut ChunkCache,
    key: ChunkKey,
    entry: &CatalogEntry,
    extent: Extent,
    loader: &L,
) -> (res: Result<Vec<u8>, IoError>)
    requires
        old(cache).wf(),
        loader.requires((entry, extent.offset, extent.len)),
    ensures
        final(cache).wf(),
        res matches Ok(bytes) ==> bytes@.len() == extent.len,
        old(cache)@.answer(key) is Load ==> exists|raw: Result<Vec<u8>, IoError>|
            {
                &&& #[trigger] loader.ensures((entry, extent.offset, extent.len), raw)
                &&& fetched(
                    old(cache)@,
                    final(cache)@,
                    key,
                    extent.len,
                    outcome(res),
                    outcome(raw),
                )
            },
        !(old(cache)@.answer(key) is Load) ==> fetched(
            old(cache)@,
            final(cache)@,
            key,
            extent.len,
            outcome(res),
            outcome(res),
        ),
{
    let fill = |k: ChunkKey| -> (r: Result<Vec<u8>, IoError>)
        requires
            loader.requires((entry, extent.offset, extent.len)),
        ensures
            exists|raw: Result<Vec<u8>, IoError>|
                {
                    &&& #[trigger] loader.ensures((entry, extent.offset, extent.len), raw)
                    &&& outcome(r) == checked(outcome(raw), extent.len)
                },
        { check_length(loader(entry, extent.offset, extent.len), extent.len) };
    let got = cache.get_or_fill(key, &fill);
    proof {
        if old(cache)@.answer(key) is Load {
            let loaded = choose|loaded: Result<Vec<u8>, IoError>|
                {
                    &&& #[trigger] fill.ensures((key,), loaded)
                    &&& outcome(got) == outcome(loaded)
                    &&& cache@ == old(cache)@.begun(key).finished(key, outcome(loaded))
                };
            let raw = choose|raw: Result<Vec<u8>, IoError>|
                {
                    &&& #[trigger] loader.ensures((entry, extent.offset, extent.len), raw)
                    &&& outcome(loaded) == checked(outcome(raw), extent.len)
                };
            assert(loader.ensures((entry, extent.offset, extent.len), raw));
        }
    }
    check_length(got, extent.len)
}

/// Reads the bytes of a range of an entry's file.
///
/// The chunks that overlap the range are taken in ascending order, each
/// from the cache where it is held and else from the loader, which is
/// asked for exactly the stretch of the file that the chunk covers, and
/// for no chunk that does not overlap the range. A
/// chunk that comes back shorter than that stretch means that the file is
/// no longer what the catalog says.
///
/// Whenever the loader is faithful to a file and the cache agrees with that
/// file, the bytes that are returned are those of the range in that file,
/// and the cache still agrees with the file afterwards.
pub fn read<L: Fn(&CatalogEntry, u64, u64) -> Result<Vec<u8>, IoError>>(
    cache: &mut ChunkCache,
    entry: &CatalogEntry,
    range: &ByteRange,
    loader: &L,
) -> (res: Result<Vec<u8>, IoError>)
    requires
        old(cache).wf(),
        range.wf(),
        range.total == entry.size,
        range.spec_len() <= usize::MAX,
        loads_span(loader, entry, old(cache)@.chunk_size, *range),
    ensures
        final(cache).wf(),
        final(cache)@.chunk_size == old(cache)@.chunk_size,
        final(cache)@.budget == old(cache)@.budget,
        res matches Ok(bytes) ==> bytes@.len() == range.spec_len(),
        keeps_others(old(cache)@, final(cache)@, entry.id),
        reliable(loader, entry@) && settled(old(cache)@, entry.id, range.total) ==> res is Ok && settled(
            final(cache)@,
            entry.id,
            range.total,
        ),
        forall|source: Seq<u8>| #[trigger]
            faithful(loader, entry@, source) && source.len() == range.total && agrees(
                old(cache)@,
                entry.id,
                source,
            ) ==> agrees(final(cache)@, entry.id, source) && (res matches Ok(bytes) ==> bytes@
                == source.subrange(range.start as int, range.end + 1)),
{
    let chunk_size = cache.chunk_size();
    proof {
        cache.lemma_wf();
    }
    let mut out: Vec<u8> = Vec::new();
    let mut pos: u64 = range.start;
    assert forall|source: Seq<u8>| source.len() == range.total implies out@ =~= source.subrange(
        range.start as int,
        pos as int,
    ) by {}
    while pos <= range.end
        invariant
            cache.wf(),
            chunk_size > 0,
            cache@.chunk_size == chunk_size,
            cache@.chunk_size == old(cache)@.chunk_size,
            cache@.budget == old(cache)@.budget,
            range.wf(),
            range.start <= pos <= range.end + 1,
            out@.len() == pos - range.start,
            range.total == entry.size,
            keeps_others(old(cache)@, cache@, entry.id),
            loads_span(loader, entry, chunk_size, *range),
            reliable(loader, entry@) && settled(old(cache)@, entry.id, range.total) ==> settled(
                cache@,
                entry.id,
                range.total,
            ),
            forall|source: Seq<u8>| #[trigger]
                faithful(loader, entry@, source) && source.len() == range.total && agrees(
                    old(cache)@,
                    entry.id,
                    source,
                ) ==> agrees(cache@, entry.id, source) && out@ == source.subrange(
                    range.start as int,
                    pos as int,
                ),
        decreases range.end + 1 - pos,
    {
        let (chunk, extent) = chunk_at(pos, chunk_size, range.total);
        let key = ChunkKey { entry: entry.id, chunk };
        proof {
            vstd::arithmetic::div_mod::lemma_div_is_ordered(
                range.start as int,
                pos as int,
                chunk_size as int,
            );
            vstd::arithmetic::div_mod::lemma_div_is_ordered(
                pos as int,
                range.end as int,
                chunk_size as int,
            );
        }
        let ghost before = cache@;
        let ghost out_before = out@;
        proof {
            cache.lemma_wf();
        }
        let got = fetch(cache, key, entry, extent, loader);
        proof {
            let raw = if before.answer(key) is Load {
                choose|raw: Result<Vec<u8>, IoError>|
                    {
                        &&& #[trigger] loader.ensures((entry, extent.offset, extent.len), raw)
                        &&& fetched(before, cache@, key, extent.len, outcome(got), outcome(raw))
                    }
            } else {
                got
            };
            lemma_fetched(before, cache@, key, extent.len, outcome(got), outcome(raw));
            assert forall|source: Seq<u8>| #[trigger]
                faithful(loader, entry@, source) && source.len() == range.total && agrees(
                    old(cache)@,
                    entry.id,
                    source,
                ) implies agrees(cache@, entry.id, source) && (got matches Ok(bytes) ==> bytes@
                == source.subrange(extent.offset as int, extent.offset + extent.len)) by {
                lemma_fetched_agrees(
                    before,
                    cache@,
                    key,
                    extent.len,
                    outcome(got),
                    outcome(raw),
                    source,
                );
            }
        }
        let bytes = match got {
            Ok(bytes) => bytes,
            Err(e) => {
                return Err(e);
            },
        };
        let last = if range.end + 1 < extent.offset + extent.len {
            range.end + 1
        } else {
            extent.offset + extent.len
        };
        let held = bytes.len();
        assert(held == extent.len);
        let from = (pos - extent.offset) as usize;
        let upto = (last - extent.offset) as usize;
        append_part(&mut out, &bytes, from, upto);
        proof {
            assert forall|source: Seq<u8>| #[trigger]
                faithful(loader, entry@, source) && source.len() == range.total && agrees(
                    old(cache)@,
                    entry.id,
                    source,
                ) implies out@ == source.subrange(range.start as int, last as int) by {
                let whole = source.subrange(extent.offset as int, extent.offset + extent.len);
                assert(bytes@ == whole);
                assert(whole.subrange(from as int, upto as int) =~= source.subrange(
                    pos as int,
                    last as int,
                ));
                assert(out_before + source.subrange(pos as int, last as int) =~= source.subrange(
                    range.start as int,
                    last as int,
                ));
            }
        }
        pos = last;
    }
    Ok(out)
}

} // verus!
