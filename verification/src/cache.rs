//! The chunk cache: recently read chunks of image files, held within a
//! budget of bytes and given up least recently used first.

use vstd::prelude::*;

verus! {

/// Why bytes of a file could not be had.
#[derive(Clone, Copy, Debug, PartialEq, Eq, Structural)]
pub enum IoError {
    /// The file is gone or shorter than the catalog says: the catalog is
    /// out of date.
    Stale,
    /// The read failed for a reason that may pass.
    Transient,
}

impl IoError {
    /// How a read that could not be made is taken: where the file is not
    /// there, the catalog is out of date; any other failure may pass.
    pub fn of_failure(file_missing: bool) -> (res: IoError)
        ensures
            res == if file_missing {
                IoError::Stale
            } else {
                IoError::Transient
            },
    {
        if file_missing {
            IoError::Stale
        } else {
            IoError::Transient
        }
    }
}

/// Which chunk of which catalog entry.
#[derive(Clone, Copy, Debug, PartialEq, Eq, Structural)]
pub struct ChunkKey {
    pub entry: u64,
    pub chunk: u64,
}

/// A chunk that the cache holds, as a value.
pub struct CachedChunk {
    pub key: ChunkKey,
    pub bytes: Seq<u8>,
}

/// The cache as a value: its limits, the chunks it holds from the least
/// recently used to the most recently used, and the keys whose chunks are
/// being loaded.
pub struct CacheView {
    pub chunk_size: u64,
    pub budget: u64,
    pub chunks: Seq<CachedChunk>,
    pub loading: Set<ChunkKey>,
}

/// What the cache answers to a request for a chunk.
#[derive(Debug, PartialEq, Eq)]
pub enum Begin {
    /// The chunk is held: here is a copy.
    Hit(Vec<u8>),
    /// The chunk is not held and nobody loads it: the caller is to load it
    /// and to report with `finish`.
    Load,
    /// The chunk is not held and somebody loads it: the caller is to ask
    /// again later.
    Wait,
}

/// What the cache answers to a request, as a value.
pub enum BeginView {
    Hit(Seq<u8>),
    Load,
    Wait,
}

impl View for Begin {
    type V = BeginView;

    open spec fn view(&self) -> BeginView {
        match self {
            Begin::Hit(bytes) => BeginView::Hit(bytes@),
            Begin::Load => BeginView::Load,
            Begin::Wait => BeginView::Wait,
        }
    }
}

/// The outcome of a load as a value.
pub open spec fn outcome(loaded: Result<Vec<u8>, IoError>) -> Result<Seq<u8>, IoError> {
    match loaded {
        Ok(bytes) => Ok(bytes@),
        Err(e) => Err(e),
    }
}

/// The place of the chunk with this key; the number of chunks where none
/// has it.
pub open spec fn place(chunks: Seq<CachedChunk>, key: ChunkKey) -> int
    decreases chunks.len(),
{
    if chunks.len() == 0 || chunks[0].key == key {
        0
    } else {
        1 + place(chunks.drop_first(), key)
    }
}

/// The bytes that the chunks hold together.
pub open spec fn total(chunks: Seq<CachedChunk>) -> nat
    decreases chunks.len(),
{
    if chunks.len() == 0 {
        0
    } else {
        total(chunks.drop_last()) + chunks.last().bytes.len()
    }
}

/// No key occurs twice.
pub open spec fn distinct_keys(chunks: Seq<CachedChunk>) -> bool {
    forall|i: int, j: int|
        0 <= i < j < chunks.len() ==> (#[trigger] chunks[i]).key != (#[trigger] chunks[j]).key
}

/// The chunks that stay when the least recently used are given up, one by
/// one, until what stays holds at most `room` bytes.
pub open spec fn make_room(chunks: Seq<CachedChunk>, room: nat) -> Seq<CachedChunk>
    decreases chunks.len(),
{
    if chunks.len() == 0 || total(chunks) <= room {
        chunks
    } else {
        make_room(chunks.drop_first(), room)
    }
}

impl CacheView {
    /// The limits are sensible and kept: chunks have a positive size, no
    /// chunk is longer, no key is held twice, the chunks fit the budget,
    /// and no chunk that is held is being loaded.
    pub open spec fn wf(self) -> bool {
        &&& self.chunk_size > 0
        &&& distinct_keys(self.chunks)
        &&& forall|i: int|
            0 <= i < self.chunks.len() ==> (#[trigger] self.chunks[i]).bytes.len()
                <= self.chunk_size
        &&& total(self.chunks) <= self.budget
        &&& self.loading.finite()
        &&& forall|i: int|
            0 <= i < self.chunks.len() ==> !self.loading.contains((#[trigger] self.chunks[i]).key)
    }

    /// True when the chunk of this key is held.
    pub open spec fn holds(self, key: ChunkKey) -> bool {
        place(self.chunks, key) < self.chunks.len()
    }

    /// The bytes held under this key.
    pub open spec fn bytes_of(self, key: ChunkKey) -> Seq<u8>
        recommends
            self.holds(key),
    {
        self.chunks[place(self.chunks, key)].bytes
    }

    /// The cache after the chunk of this key was used: it is now the most
    /// recently used one.
    pub open spec fn touched(self, key: ChunkKey) -> CacheView {
        let at = place(self.chunks, key);
        CacheView { chunks: self.chunks.remove(at).push(self.chunks[at]), ..self }
    }

    /// What a request for a chunk is answered.
    pub open spec fn answer(self, key: ChunkKey) -> BeginView {
        if self.holds(key) {
            BeginView::Hit(self.bytes_of(key))
        } else if self.loading.contains(key) {
            BeginView::Wait
        } else {
            BeginView::Load
        }
    }

    /// The cache after a request for a chunk: a chunk that is held becomes
    /// the most recently used one, and a chunk that the caller is to load
    /// is noted as being loaded.
    pub open spec fn begun(self, key: ChunkKey) -> CacheView {
        if self.holds(key) {
            self.touched(key)
        } else if self.loading.contains(key) {
            self
        } else {
            CacheView { loading: self.loading.insert(key), ..self }
        }
    }

    /// True when a loaded chunk is kept: its load was begun and not
    /// forgotten since, and it is no longer than a chunk or the budget.
    pub open spec fn keeps(self, key: ChunkKey, loaded: Result<Seq<u8>, IoError>) -> bool {
        loaded matches Ok(bytes) && self.loading.contains(key) && bytes.len() <= self.chunk_size
            && bytes.len() <= self.budget
    }

    /// The cache after the end of a load was told: the key is no longer being
    /// loaded, and a chunk that is kept is the most recently used one, for
    /// which the least recently used ones gave way as far as needed. A
    /// failed load leaves no chunk.
    pub open spec fn finished(self, key: ChunkKey, loaded: Result<Seq<u8>, IoError>) -> CacheView {
        if self.keeps(key, loaded) {
            let bytes = loaded->Ok_0;
            CacheView {
                chunks: make_room(self.chunks, (self.budget - bytes.len()) as nat).push(
                    CachedChunk { key, bytes },
                ),
                loading: self.loading.remove(key),
                ..self
            }
        } else {
            CacheView { loading: self.loading.remove(key), ..self }
        }
    }

    /// The cache after everything was forgotten: no chunk is held and no
    /// load is awaited.
    pub open spec fn cleared(self) -> CacheView {
        CacheView { chunks: Seq::empty(), loading: Set::empty(), ..self }
    }
}

/// `place` is the one place before which the key does not occur and at
/// which it does, or the chunks end.
pub proof fn lemma_place(chunks: Seq<CachedChunk>, key: ChunkKey, at: int)
    requires
        0 <= at <= chunks.len(),
        forall|j: int| 0 <= j < at ==> (#[trigger] chunks[j]).key != key,
        at == chunks.len() || chunks[at].key == key,
    ensures
        place(chunks, key) == at,
    decreases chunks.len(),
{
    if chunks.len() == 0 || chunks[0].key == key {
    } else {
        let rest = chunks.drop_first();
        assert forall|j: int| 0 <= j < at - 1 implies (#[trigger] rest[j]).key != key by {
            assert(rest[j] == chunks[j + 1]);
        }
        lemma_place(rest, key, at - 1);
    }
}

/// Where `place` points within the chunks, the key stands, and nowhere
/// before.
pub proof fn lemma_place_found(chunks: Seq<CachedChunk>, key: ChunkKey)
    ensures
        0 <= place(chunks, key) <= chunks.len(),
        place(chunks, key) < chunks.len() ==> chunks[place(chunks, key)].key == key,
        forall|j: int| 0 <= j < place(chunks, key) ==> (#[trigger] chunks[j]).key != key,
    decreases chunks.len(),
{
    if chunks.len() == 0 || chunks[0].key == key {
    } else {
        let rest = chunks.drop_first();
        lemma_place_found(rest, key);
        assert forall|j: int| 0 <= j < place(chunks, key) implies (#[trigger] chunks[j]).key != key by {
            if j > 0 {
                assert(rest[j - 1] == chunks[j]);
            }
        }
    }
}

/// Taking a chunk out takes its bytes off the total.
pub proof fn lemma_total_remove(chunks: Seq<CachedChunk>, at: int)
    requires
        0 <= at < chunks.len(),
    ensures
        total(chunks.remove(at)) + chunks[at].bytes.len() == total(chunks),
    decreases chunks.len(),
{
    if at == chunks.len() - 1 {
        assert(chunks.remove(at) =~= chunks.drop_last());
    } else {
        lemma_total_remove(chunks.drop_last(), at);
        assert(chunks.remove(at).drop_last() =~= chunks.drop_last().remove(at));
        assert(chunks.remove(at).last() == chunks.last());
    }
}

/// Adding a chunk adds its bytes to the total.
pub proof fn lemma_total_push(chunks: Seq<CachedChunk>, chunk: CachedChunk)
    ensures
        total(chunks.push(chunk)) == total(chunks) + chunk.bytes.len(),
{
    assert(chunks.push(chunk).drop_last() =~= chunks);
}

/// Using a chunk that is held keeps the cache well formed and the chunk
/// held, with the same bytes.
pub proof fn lemma_touched(view: CacheView, key: ChunkKey)
    requires
        view.wf(),
        view.holds(key),
    ensures
        view.touched(key).wf(),
        view.touched(key).holds(key),
        view.touched(key).bytes_of(key) == view.bytes_of(key),
        total(view.touched(key).chunks) == total(view.chunks),
{
    let at = place(view.chunks, key);
    lemma_place_found(view.chunks, key);
    let rest = view.chunks.remove(at);
    let after = rest.push(view.chunks[at]);
    lemma_total_remove(view.chunks, at);
    lemma_total_push(rest, view.chunks[at]);
    assert forall|i: int| 0 <= i < after.len() implies #[trigger] after[i] == view.chunks[if i
        == after.len() - 1 {
        at
    } else if i < at {
        i
    } else {
        i + 1
    }] by {}
    assert forall|i: int, j: int| 0 <= i < j < after.len() implies (#[trigger] after[i]).key != (
    #[trigger] after[j]).key by {
        let a = if i < at { i } else { i + 1 };
        let b = if j == after.len() - 1 { at } else if j < at { j } else { j + 1 };
        assert(after[i] == view.chunks[a]);
        assert(after[j] == view.chunks[b]);
        if a < b {
            assert(view.chunks[a].key != view.chunks[b].key);
        } else {
            assert(view.chunks[b].key != view.chunks[a].key);
        }
    }
    assert forall|j: int| 0 <= j < after.len() - 1 implies (#[trigger] after[j]).key != key by {
        let a = if j < at { j } else { j + 1 };
        assert(after[j] == view.chunks[a]);
        if a < at {
            assert(view.chunks[a].key != view.chunks[at].key);
        } else {
            assert(view.chunks[at].key != view.chunks[a].key);
        }
    }
    lemma_place(after, key, after.len() - 1);
}

/// How many of the least recently used chunks give way for what stays to
/// hold at most `room` bytes.
pub open spec fn given_up(chunks: Seq<CachedChunk>, room: nat) -> nat
    decreases chunks.len(),
{
    if chunks.len() == 0 || total(chunks) <= room {
        0
    } else {
        1 + given_up(chunks.drop_first(), room)
    }
}

/// Making room gives up the least recently used chunks and no others, and
/// what stays fits.
pub proof fn lemma_make_room(chunks: Seq<CachedChunk>, room: nat)
    ensures
        given_up(chunks, room) <= chunks.len(),
        make_room(chunks, room) == chunks.skip(given_up(chunks, room) as int),
        total(make_room(chunks, room)) <= room,
    decreases chunks.len(),
{
    if chunks.len() == 0 || total(chunks) <= room {
        assert(chunks.skip(0) =~= chunks);
    } else {
        lemma_make_room(chunks.drop_first(), room);
        assert(chunks.drop_first().skip(given_up(chunks.drop_first(), room) as int) =~= chunks.skip(
            given_up(chunks, room) as int,
        ));
    }
}

/// What stays after the least recently used chunks gave way is part of a
/// well-formed cache.
pub proof fn lemma_skip_wf(view: CacheView, n: int)
    requires
        view.wf(),
        0 <= n <= view.chunks.len(),
    ensures
        (CacheView { chunks: view.chunks.skip(n), ..view }).wf(),
        total(view.chunks.skip(n)) <= total(view.chunks),
        forall|key: ChunkKey| !view.holds(key) ==> place(view.chunks.skip(n), key) == view.chunks.len() - n,
    decreases n,
{
    let rest = view.chunks.skip(n);
    if n == 0 {
        assert(rest =~= view.chunks);
        assert forall|key: ChunkKey| !view.holds(key) implies place(rest, key) == view.chunks.len() by {
            lemma_place_found(view.chunks, key);
        }
    } else {
        lemma_skip_wf(view, n - 1);
        let before = view.chunks.skip(n - 1);
        assert(before.remove(0) =~= rest);
        lemma_total_remove(before, 0);
        assert forall|i: int| 0 <= i < rest.len() implies #[trigger] rest[i] == view.chunks[i + n] by {}
        assert forall|key: ChunkKey| !view.holds(key) implies place(rest, key) == view.chunks.len()
            - n by {
            lemma_place_found(view.chunks, key);
            assert forall|j: int| 0 <= j < rest.len() implies (#[trigger] rest[j]).key != key by {
                assert(rest[j] == view.chunks[j + n]);
            }
            lemma_place(rest, key, rest.len() as int);
        }
    }
}

/// Reporting a load keeps the cache well formed.
pub proof fn lemma_finished(view: CacheView, key: ChunkKey, loaded: Result<Seq<u8>, IoError>)
    requires
        view.wf(),
    ensures
        view.finished(key, loaded).wf(),
        view.keeps(key, loaded) ==> view.finished(key, loaded).holds(key) && view.finished(
            key,
            loaded,
        ).bytes_of(key) == loaded->Ok_0,
{
    if view.keeps(key, loaded) {
        let bytes = loaded->Ok_0;
        let room = (view.budget - bytes.len()) as nat;
        let n = given_up(view.chunks, room) as int;
        lemma_make_room(view.chunks, room);
        lemma_skip_wf(view, n);
        let rest = view.chunks.skip(n);
        let after = rest.push(CachedChunk { key, bytes });
        lemma_total_push(rest, CachedChunk { key, bytes });
        lemma_place_found(view.chunks, key);
        if view.holds(key) {
            assert(view.loading.contains(view.chunks[place(view.chunks, key)].key));
        }
        assert(place(rest, key) == rest.len());
        lemma_place_found(rest, key);
        assert forall|j: int| 0 <= j < after.len() - 1 implies (#[trigger] after[j]).key != key by {
            assert(after[j] == rest[j]);
        }
        lemma_place(after, key, after.len() - 1);
        assert forall|i: int, j: int| 0 <= i < j < after.len() implies (#[trigger] after[i]).key != (
        #[trigger] after[j]).key by {
            assert(after[i] == rest[i]);
            if j < after.len() - 1 {
                assert(after[j] == rest[j]);
            }
        }
        let done = view.finished(key, loaded);
        assert(done.chunks == after);
        assert forall|i: int| 0 <= i < after.len() implies (#[trigger] after[i]).bytes.len()
            <= view.chunk_size && !done.loading.contains(after[i].key) by {
            if i < after.len() - 1 {
                assert(after[i] == rest[i]);
            }
        }
    }
}

/// Asking for a chunk keeps the cache well formed.
pub proof fn lemma_begun(view: CacheView, key: ChunkKey)
    requires
        view.wf(),
    ensures
        view.begun(key).wf(),
        view.answer(key) is Load ==> view.begun(key).loading.contains(key) && !view.begun(key).holds(
            key,
        ),
{
    lemma_place_found(view.chunks, key);
    if view.holds(key) {
        lemma_touched(view, key);
    }
}

/// A chunk is loaded once. Between the request that is told to load it and
/// the report of that load, every other request for it is told to wait.
/// Once the load has ended, and the chunk is no longer than a chunk and
/// the budget, every request for it is answered with the bytes that were
/// loaded, as often as it is made.
pub proof fn lemma_loaded_once(view: CacheView, key: ChunkKey, bytes: Seq<u8>)
    requires
        view.wf(),
        view.answer(key) is Load,
        bytes.len() <= view.chunk_size,
        bytes.len() <= view.budget,
    ensures
        ({
            let loading = view.begun(key);
            let filled = loading.finished(key, Ok(bytes));
            &&& loading.answer(key) is Wait
            &&& loading.begun(key) == loading
            &&& filled.wf()
            &&& filled.answer(key) == BeginView::Hit(bytes)
            &&& filled.begun(key).wf()
            &&& filled.begun(key).answer(key) == BeginView::Hit(bytes)
        }),
{
    let loading = view.begun(key);
    let filled = loading.finished(key, Ok(bytes));
    lemma_begun(view, key);
    lemma_finished(loading, key, Ok(bytes));
    lemma_touched(filled, key);
}

/// A load that failed leaves no chunk and no trace: the next request for
/// the chunk is told to load it.
pub proof fn lemma_failed_load(view: CacheView, key: ChunkKey, e: IoError)
    requires
        view.wf(),
        view.answer(key) is Load,
    ensures
        view.begun(key).finished(key, Err(e)) == view,
{
    let loading = view.begun(key);
    let after = loading.finished(key, Err(e));
    assert(after.loading =~= view.loading);
}

/// Tells whether a load that ended like this is tried once more: only
/// after a failure that may pass.
pub fn should_retry(first: &Result<Vec<u8>, IoError>) -> (res: bool)
    ensures
        res == (first matches Err(IoError::Transient)),
{
    match first {
        Err(IoError::Transient) => true,
        _ => false,
    }
}

/// Calls the loader, and once more where `should_retry` says so.
pub fn load_with_retry<F: Fn(ChunkKey) -> Result<Vec<u8>, IoError>>(
    loader: &F,
    key: ChunkKey,
) -> (res: Result<Vec<u8>, IoError>)
    requires
        loader.requires((key,)),
    ensures
        loader.ensures((key,), res),
{
    let first = loader(key);
    if should_retry(&first) {
        loader(key)
    } else {
        first
    }
}

/// A chunk as the cache holds it. It never leaves the cache: what is handed
/// out is a copy of its bytes.
struct CacheChunk {
    key: ChunkKey,
    bytes: Vec<u8>,
}

/// A bounded cache of chunks.
pub struct ChunkCache {
    chunk_size: u64,
    budget: u64,
    used: u64,
    slots: Vec<CacheChunk>,
    loading: Vec<ChunkKey>,
}

/// The chunks of a vector as values.
spec fn chunk_views(slots: Seq<CacheChunk>) -> Seq<CachedChunk> {
    slots.map_values(|s: CacheChunk| CachedChunk { key: s.key, bytes: s.bytes@ })
}

impl View for ChunkCache {
    type V = CacheView;

    closed spec fn view(&self) -> CacheView {
        CacheView {
            chunk_size: self.chunk_size,
            budget: self.budget,
            chunks: chunk_views(self.slots@),
            loading: self.loading@.to_set(),
        }
    }
}

impl ChunkCache {
    /// The cache keeps its limits, and its count of the bytes it holds is
    /// right.
    pub closed spec fn wf(&self) -> bool {
        &&& self@.wf()
        &&& self.used == total(self@.chunks)
        &&& self.loading@.no_duplicates()
    }

    /// A well-formed cache is one as a value.
    pub proof fn lemma_wf(&self)
        requires
            self.wf(),
        ensures
            self@.wf(),
    {
    }

    /// An empty cache of chunks of `chunk_size` bytes that holds at most
    /// `budget` bytes. There is none for chunks of no bytes.
    pub fn new(chunk_size: u64, budget: u64) -> (res: Option<ChunkCache>)
        ensures
            chunk_size == 0 <==> res is None,
            res matches Some(cache) ==> cache.wf() && cache@ == (CacheView {
                chunk_size,
                budget,
                chunks: Seq::empty(),
                loading: Set::empty(),
            }),
    {
        if chunk_size == 0 {
            None
        } else {
            let cache = ChunkCache {
                chunk_size,
                budget,
                used: 0,
                slots: Vec::new(),
                loading: Vec::new(),
            };
            assert(cache@.chunks =~= Seq::<CachedChunk>::empty());
            assert(cache@.loading =~= Set::<ChunkKey>::empty());
            Some(cache)
        }
    }

    /// The size of a chunk in bytes.
    pub fn chunk_size(&self) -> (n: u64)
        ensures
            n == self@.chunk_size,
    {
        self.chunk_size
    }

    /// The most bytes that the cache holds at a time.
    pub fn budget(&self) -> (n: u64)
        ensures
            n == self@.budget,
    {
        self.budget
    }

    /// The bytes that the cache holds now.
    pub fn used(&self) -> (n: u64)
        requires
            self.wf(),
        ensures
            n == total(self@.chunks),
    {
        self.used
    }

    /// The place of the chunk with this key among the chunks.
    fn find(&self, key: ChunkKey) -> (at: usize)
        ensures
            at == place(self@.chunks, key),
            at <= self@.chunks.len(),
            self@.chunks.len() == self.slots@.len(),
    {
        let mut i: usize = 0;
        while i < self.slots.len()
            invariant
                0 <= i <= self.slots@.len(),
                forall|j: int| 0 <= j < i ==> (#[trigger] self@.chunks[j]).key != key,
            decreases self.slots@.len() - i,
        {
            if self.slots[i].key.entry == key.entry && self.slots[i].key.chunk == key.chunk {
                proof {
                    assert(self@.chunks[i as int].key == key);
                    lemma_place(self@.chunks, key, i as int);
                }
                return i;
            }
            assert(self@.chunks[i as int].key != key);
            i += 1;
        }
        proof {
            lemma_place(self@.chunks, key, i as int);
        }
        i
    }

    /// The place of this key among those being loaded; their number where
    /// it is not one of them.
    fn find_loading(&self, key: ChunkKey) -> (at: usize)
        ensures
            at <= self.loading@.len(),
            at < self.loading@.len() ==> self.loading@[at as int] == key,
            at == self.loading@.len() ==> !self@.loading.contains(key),
    {
        let mut i: usize = 0;
        while i < self.loading.len()
            invariant
                0 <= i <= self.loading@.len(),
                forall|j: int| 0 <= j < i ==> self.loading@[j] != key,
            decreases self.loading@.len() - i,
        {
            if self.loading[i].entry == key.entry && self.loading[i].chunk == key.chunk {
                return i;
            }
            i += 1;
        }
        i
    }

    /// Answers a request for a chunk. A chunk that is held is handed out
    /// as a copy and becomes the most recently used one. Of a chunk that
    /// is not held, the first to ask is told to load it, and whoever asks
    /// before the end of that load is told to wait.
    pub fn begin(&mut self, key: ChunkKey) -> (res: Begin)
        requires
            old(self).wf(),
        ensures
            final(self).wf(),
            final(self)@ == old(self)@.begun(key),
            res@ == old(self)@.answer(key),
    {
        let at = self.find(key);
        if at < self.slots.len() {
            let slot = self.slots.remove(at);
            let copy = slot.bytes.clone();
            assert(copy@ =~= slot.bytes@);
            self.slots.push(slot);
            proof {
                lemma_touched(old(self)@, key);
                assert(self@.chunks =~= old(self)@.touched(key).chunks);
            }
            Begin::Hit(copy)
        } else if self.find_loading(key) < self.loading.len() {
            Begin::Wait
        } else {
            self.loading.push(key);
            proof {
                let before = old(self).loading@;
                assert forall|k: ChunkKey| #[trigger]
                    before.push(key).to_set().contains(k) <==> before.to_set().insert(key).contains(
                        k,
                    ) by {
                    if before.push(key).contains(k) {
                        let i = choose|i: int| 0 <= i < before.push(key).len() && before.push(key)[i] == k;
                        if i < before.len() {
                            assert(before[i] == k);
                        }
                    }
                    if before.contains(k) {
                        let i = choose|i: int| 0 <= i < before.len() && before[i] == k;
                        assert(before.push(key)[i] == k);
                    }
                    if k == key {
                        assert(before.push(key)[before.len() as int] == k);
                    }
                }
                assert(self@.loading =~= old(self)@.loading.insert(key));
                assert forall|i: int| 0 <= i < before.len() implies before[i] != key by {
                    assert(before.contains(before[i]));
                }
                lemma_place_found(self@.chunks, key);
            }
            Begin::Load
        }
    }

    /// Gives up the least recently used chunks until those that stay hold
    /// at most `room` bytes.
    fn evict_to(&mut self, room: u64)
        requires
            old(self).wf(),
        ensures
            final(self).wf(),
            final(self)@ == (CacheView {
                chunks: make_room(old(self)@.chunks, room as nat),
                ..old(self)@
            }),
            final(self).loading == old(self).loading,
            total(final(self)@.chunks) <= room,
    {
        while self.used > room
            invariant
                self.wf(),
                self.chunk_size == old(self).chunk_size,
                self.budget == old(self).budget,
                self.loading == old(self).loading,
                make_room(self@.chunks, room as nat) == make_room(old(self)@.chunks, room as nat),
            decreases self.slots@.len(),
        {
            let ghost before = self@;
            assert(self@.chunks.len() > 0);
            let slot = self.slots.remove(0);
            proof {
                assert(self@.chunks =~= before.chunks.skip(1));
                assert(before.chunks.drop_first() =~= before.chunks.skip(1));
                lemma_skip_wf(before, 1);
                lemma_total_remove(before.chunks, 0);
                assert(before.chunks.remove(0) =~= before.chunks.skip(1));
                assert(before.chunks[0].bytes == slot.bytes@);
            }
            self.used = self.used - slot.bytes.len() as u64;
        }
    }

    /// Takes the report of a load. The key is no longer being loaded. A
    /// chunk that was loaded is kept where its load had been begun and it
    /// is no longer than a chunk and the budget; it is then the most
    /// recently used one, and the least recently used ones give way for
    /// it. Whatever was loaded is handed on to the caller.
    pub fn finish(&mut self, key: ChunkKey, loaded: Result<Vec<u8>, IoError>) -> (res: Result<
        Vec<u8>,
        IoError,
    >)
        requires
            old(self).wf(),
        ensures
            final(self).wf(),
            final(self)@ == old(self)@.finished(key, outcome(loaded)),
            outcome(res) == outcome(loaded),
    {
        let was_loading = self.forget_loading(key);
        match loaded {
            Ok(bytes) => {
                let n = bytes.len();
                if was_loading && n as u64 <= self.chunk_size && n as u64 <= self.budget {
                    let copy = bytes.clone();
                    assert(copy@ =~= bytes@);
                    proof {
                        lemma_finished(old(self)@, key, outcome(loaded));
                    }
                    self.evict_to(self.budget - n as u64);
                    proof {
                        lemma_total_push(self@.chunks, CachedChunk { key, bytes: bytes@ });
                    }
                    self.slots.push(CacheChunk { key, bytes });
                    self.used = self.used + n as u64;
                    proof {
                        assert(self@.chunks =~= old(self)@.finished(key, outcome(loaded)).chunks);
                    }
                    Ok(copy)
                } else {
                    proof {
                        lemma_finished(old(self)@, key, outcome(loaded));
                    }
                    Ok(bytes)
                }
            },
            Err(e) => {
                proof {
                    lemma_finished(old(self)@, key, outcome(loaded));
                }
                Err(e)
            },
        }
    }

    /// Takes the key out of those being loaded, and tells whether it was
    /// one of them.
    fn forget_loading(&mut self, key: ChunkKey) -> (was: bool)
        requires
            old(self).wf(),
        ensures
            final(self).wf(),
            was == old(self)@.loading.contains(key),
            final(self)@ == (CacheView { loading: old(self)@.loading.remove(key), ..old(self)@ }),
    {
        let at = self.find_loading(key);
        if at < self.loading.len() {
            let ghost before = self.loading@;
            self.loading.remove(at);
            proof {
                let after = self.loading@;
                assert(before.contains(key));
                assert forall|k: ChunkKey| #[trigger]
                    after.to_set().contains(k) <==> before.to_set().remove(key).contains(k) by {
                    if after.contains(k) {
                        let i = choose|i: int| 0 <= i < after.len() && after[i] == k;
                        let j = if i < at { i } else { i + 1 };
                        assert(before[j] == k);
                    }
                    if before.contains(k) && k != key {
                        let i = choose|i: int| 0 <= i < before.len() && before[i] == k;
                        let j = if i < at { i } else { i - 1 };
                        assert(after[j] == k);
                    }
                }
                assert(self@.loading =~= old(self)@.loading.remove(key));
                assert forall|i: int, j: int| 0 <= i < after.len() && 0 <= j < after.len() && i
                    != j implies after[i] != after[j] by {
                    let a = if i < at { i } else { i + 1 };
                    let b = if j < at { j } else { j + 1 };
                    assert(after[i] == before[a]);
                    assert(after[j] == before[b]);
                }
            }
            true
        } else {
            assert(self@.loading =~= old(self)@.loading.remove(key));
            false
        }
    }

    /// Forgets every chunk and every load that is awaited, as after a
    /// catalog was replaced. A load that ends later leaves no chunk.
    pub fn clear(&mut self)
        requires
            old(self).wf(),
        ensures
            final(self).wf(),
            final(self)@ == old(self)@.cleared(),
    {
        self.slots.clear();
        self.loading.clear();
        self.used = 0;
        proof {
            assert(self@.chunks =~= Seq::<CachedChunk>::empty());
            assert(self@.loading =~= Set::<ChunkKey>::empty());
        }
    }

    /// Hands out the chunk of a key, loading it where it is not held.
    ///
    /// A chunk that is held is handed out without the loader being called.
    /// Where the chunk is not held and nobody loads it, the loader is
    /// called, a second time where the first attempt failed in a way that
    /// may pass, and what it loaded is kept as `finish` says. Where
    /// somebody else loads the chunk, nothing is loaded, and the failure
    /// is one that may pass.
    pub fn get_or_fill<F: Fn(ChunkKey) -> Result<Vec<u8>, IoError>>(
        &mut self,
        key: ChunkKey,
        loader: &F,
    ) -> (res: Result<Vec<u8>, IoError>)
        requires
            old(self).wf(),
            old(self)@.answer(key) is Load ==> loader.requires((key,)),
        ensures
            final(self).wf(),
            match old(self)@.answer(key) {
                BeginView::Hit(bytes) => outcome(res) == Ok::<Seq<u8>, IoError>(bytes) && final(self)@
                    == old(self)@.begun(key),
                BeginView::Wait => outcome(res) == Err::<Seq<u8>, IoError>(IoError::Transient)
                    && final(self)@ == old(self)@,
                BeginView::Load => exists|loaded: Result<Vec<u8>, IoError>|
                    {
                        &&& #[trigger] loader.ensures((key,), loaded)
                        &&& outcome(res) == outcome(loaded)
                        &&& final(self)@ == old(self)@.begun(key).finished(key, outcome(loaded))
                    },
            },
    {
        match self.begin(key) {
            Begin::Hit(bytes) => Ok(bytes),
            Begin::Wait => Err(IoError::Transient),
            Begin::Load => {
                let loaded = load_with_retry(loader, key);
                let ghost witness = loaded;
                let res = self.finish(key, loaded);
                assert(loader.ensures((key,), witness));
                res
            },
        }
    }

    /// Tells whether the chunk of this key is held, without using it.
    pub fn holds(&self, key: ChunkKey) -> (res: bool)
        ensures
            res == self@.holds(key),
    {
        self.find(key) < self.slots.len()
    }
}

} // verus!
