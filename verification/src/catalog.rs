//! The catalog: the image files found under the root, each under its public
//! name, held in the order of their names.

use crate::names::{is_plain, lemma_plain_is_ascii};
use crate::text::bytes_of_ascii;
use vstd::prelude::*;
use vstd::string::*;

verus! {

/// The order of names: character by character, a name before each of its
/// extensions.
pub open spec fn name_lt(a: Seq<char>, b: Seq<char>) -> bool
    decreases a.len(),
{
    if b.len() == 0 {
        false
    } else if a.len() == 0 {
        true
    } else if a[0] != b[0] {
        a[0] < b[0]
    } else {
        name_lt(a.drop_first(), b.drop_first())
    }
}

/// No name stands before itself.
pub proof fn lemma_lt_irreflexive(a: Seq<char>)
    ensures
        !name_lt(a, a),
    decreases a.len(),
{
    if a.len() > 0 {
        lemma_lt_irreflexive(a.drop_first());
    }
}

/// The order of names is transitive.
pub proof fn lemma_lt_transitive(a: Seq<char>, b: Seq<char>, c: Seq<char>)
    requires
        name_lt(a, b),
        name_lt(b, c),
    ensures
        name_lt(a, c),
    decreases a.len(),
{
    if a.len() > 0 && a[0] == b[0] && b[0] == c[0] {
        lemma_lt_transitive(a.drop_first(), b.drop_first(), c.drop_first());
    }
}

/// Of two different names one stands before the other.
pub proof fn lemma_lt_total(a: Seq<char>, b: Seq<char>)
    ensures
        name_lt(a, b) || a == b || name_lt(b, a),
    decreases a.len(),
{
    if a.len() == 0 || b.len() == 0 {
        if a.len() == 0 && b.len() == 0 {
            assert(a =~= b);
        }
    } else if a[0] == b[0] {
        lemma_lt_total(a.drop_first(), b.drop_first());
        if a.drop_first() == b.drop_first() {
            assert(a =~= seq![a[0]] + a.drop_first());
            assert(b =~= seq![b[0]] + b.drop_first());
        }
    }
}

/// Two names that agree on their first `k` characters stand as what
/// follows those characters stands.
pub proof fn lemma_lt_after_common(a: Seq<char>, b: Seq<char>, k: int)
    requires
        0 <= k <= a.len(),
        k <= b.len(),
        a.take(k) == b.take(k),
    ensures
        name_lt(a, b) == name_lt(a.skip(k), b.skip(k)),
    decreases k,
{
    if k == 0 {
        assert(a.skip(0) =~= a);
        assert(b.skip(0) =~= b);
    } else {
        assert(a[0] == a.take(k)[0]);
        assert(b[0] == b.take(k)[0]);
        assert(a.drop_first().take(k - 1) =~= a.take(k).drop_first());
        assert(b.drop_first().take(k - 1) =~= b.take(k).drop_first());
        lemma_lt_after_common(a.drop_first(), b.drop_first(), k - 1);
        assert(a.drop_first().skip(k - 1) =~= a.skip(k));
        assert(b.drop_first().skip(k - 1) =~= b.skip(k));
    }
}

/// How one name stands to another.
#[derive(Clone, Copy, Debug, PartialEq, Eq, Structural)]
enum Place {
    Before,
    Same,
    After,
}

/// Tells how the name `a` stands to the name `b`.
fn place_of(a: &str, b: &str) -> (res: Place)
    requires
        a.is_ascii(),
        b.is_ascii(),
    ensures
        match res {
            Place::Before => name_lt(a@, b@),
            Place::Same => a@ == b@,
            Place::After => name_lt(b@, a@),
        },
{
    let x = bytes_of_ascii(a);
    let y = bytes_of_ascii(b);
    let mut i: usize = 0;
    while i < x.len() && i < y.len()
        invariant
            x@.len() == a@.len(),
            y@.len() == b@.len(),
            forall|j: int| 0 <= j < a@.len() ==> #[trigger] x@[j] < 128 && x@[j] as char == a@[j],
            forall|j: int| 0 <= j < b@.len() ==> #[trigger] y@[j] < 128 && y@[j] as char == b@[j],
            0 <= i <= x@.len(),
            i <= y@.len(),
            a@.take(i as int) =~= b@.take(i as int),
        decreases x@.len() - i,
    {
        if x[i] != y[i] {
            proof {
                lemma_lt_after_common(a@, b@, i as int);
                lemma_lt_after_common(b@, a@, i as int);
                assert(a@.skip(i as int)[0] == a@[i as int]);
                assert(b@.skip(i as int)[0] == b@[i as int]);
                assert(x@[i as int] as char == a@[i as int]);
                assert(y@[i as int] as char == b@[i as int]);
            }
            if x[i] < y[i] {
                return Place::Before;
            } else {
                return Place::After;
            }
        }
        assert(a@.take(i + 1) =~= a@.take(i as int).push(a@[i as int]));
        assert(b@.take(i + 1) =~= b@.take(i as int).push(b@[i as int]));
        i += 1;
    }
    proof {
        lemma_lt_after_common(a@, b@, i as int);
        lemma_lt_after_common(b@, a@, i as int);
    }
    if x.len() < y.len() {
        Place::Before
    } else if x.len() > y.len() {
        Place::After
    } else {
        assert(a@.take(i as int) =~= a@);
        assert(b@.take(i as int) =~= b@);
        Place::Same
    }
}

/// One image file of the catalog.
#[derive(Debug)]
pub struct CatalogEntry {
    /// The place of the entry in the catalog's listing, which identifies it
    /// within that catalog.
    pub id: u64,
    /// The public name: the path below the root in encoded form.
    pub name: String,
    /// Where the file lies.
    pub path: String,
    /// The length of the file in bytes when it was found.
    pub size: u64,
}

/// A catalog entry as a value.
pub struct EntryView {
    pub id: u64,
    pub name: Seq<char>,
    pub path: Seq<char>,
    pub size: u64,
}

impl View for CatalogEntry {
    type V = EntryView;

    open spec fn view(&self) -> EntryView {
        EntryView { id: self.id, name: self.name@, path: self.path@, size: self.size }
    }
}

/// The entries of a vector as values.
pub open spec fn views(entries: Seq<CatalogEntry>) -> Seq<EntryView> {
    entries.map_values(|e: CatalogEntry| e@)
}

/// The strings of a vector as texts.
pub open spec fn texts(strings: Seq<String>) -> Seq<Seq<char>> {
    strings.map_values(|s: String| s@)
}

/// Each entry's name stands before those of all later entries.
pub open spec fn sorted_by_name(v: Seq<EntryView>) -> bool {
    forall|i: int, j: int|
        0 <= i < j < v.len() ==> name_lt(#[trigger] v[i].name, #[trigger] v[j].name)
}

/// Every name is plain ASCII.
pub open spec fn plainly_named(v: Seq<EntryView>) -> bool {
    forall|i: int| 0 <= i < v.len() ==> is_plain(#[trigger] v[i].name)
}

/// Each entry is identified by its place.
pub open spec fn numbered(v: Seq<EntryView>) -> bool {
    forall|i: int| 0 <= i < v.len() ==> (#[trigger] v[i]).id == i
}

/// True when some entry has this name.
pub open spec fn has_name(v: Seq<EntryView>, name: Seq<char>) -> bool {
    exists|i: int| 0 <= i < v.len() && (#[trigger] v[i]).name == name
}

/// The entry of this name, where there is one.
pub open spec fn entry_named(v: Seq<EntryView>, name: Seq<char>) -> EntryView
    recommends
        has_name(v, name),
{
    v[choose|i: int| 0 <= i < v.len() && (#[trigger] v[i]).name == name]
}

/// In a listing ordered by name no name occurs twice.
pub proof fn lemma_sorted_names_differ(v: Seq<EntryView>, i: int, j: int)
    requires
        sorted_by_name(v),
        0 <= i < v.len(),
        0 <= j < v.len(),
        i != j,
    ensures
        v[i].name != v[j].name,
{
    lemma_lt_irreflexive(v[i].name);
    if i < j {
        assert(name_lt(v[i].name, v[j].name));
    } else {
        assert(name_lt(v[j].name, v[i].name));
    }
}

/// Looks for `name` among entries ordered by name. Returns whether it is
/// there and its place, or else the place where it would have to stand.
pub(crate) fn search(entries: &Vec<CatalogEntry>, name: &str) -> (res: (bool, usize))
    requires
        sorted_by_name(views(entries@)),
        plainly_named(views(entries@)),
        name.is_ascii(),
    ensures
        res.1 <= entries@.len(),
        res.0 ==> res.1 < entries@.len() && entries@[res.1 as int].name@ == name@,
        !res.0 ==> forall|i: int| 0 <= i < res.1 ==> name_lt(#[trigger] entries@[i].name@, name@),
        !res.0 ==> forall|i: int|
            res.1 <= i < entries@.len() ==> name_lt(name@, #[trigger] entries@[i].name@),
{
    let ghost v = views(entries@);
    let mut low: usize = 0;
    let mut high: usize = entries.len();
    while low < high
        invariant
            v == views(entries@),
            sorted_by_name(v),
            plainly_named(v),
            name.is_ascii(),
            0 <= low <= high <= entries@.len(),
            forall|i: int| 0 <= i < low ==> name_lt(#[trigger] entries@[i].name@, name@),
            forall|i: int| high <= i < entries@.len() ==> name_lt(name@, #[trigger] entries@[i].name@),
        decreases high - low,
    {
        let mid = low + (high - low) / 2;
        proof {
            assert(is_plain(v[mid as int].name));
            lemma_plain_is_ascii(v[mid as int].name);
        }
        match place_of(entries[mid].name.as_str(), name) {
            Place::Same => {
                return (true, mid);
            },
            Place::Before => {
                assert forall|i: int| 0 <= i < mid + 1 implies name_lt(
                    #[trigger] entries@[i].name@,
                    name@,
                ) by {
                    if i < mid {
                        assert(name_lt(v[i].name, v[mid as int].name));
                        lemma_lt_transitive(v[i].name, v[mid as int].name, name@);
                    }
                }
                low = mid + 1;
            },
            Place::After => {
                assert forall|i: int| mid <= i < entries@.len() implies name_lt(
                    name@,
                    #[trigger] entries@[i].name@,
                ) by {
                    if i > mid {
                        assert(name_lt(v[mid as int].name, v[i].name));
                        lemma_lt_transitive(name@, v[mid as int].name, v[i].name);
                    }
                }
                high = mid;
            },
        }
    }
    (false, low)
}

/// The image files found under a root, in the order of their names.
pub struct Catalog {
    entries: Vec<CatalogEntry>,
}

impl View for Catalog {
    type V = Seq<EntryView>;

    closed spec fn view(&self) -> Seq<EntryView> {
        views(self.entries@)
    }
}

impl Catalog {
    /// The entries stand in the order of their names, which are plain
    /// ASCII, and each is identified by its place.
    pub open spec fn wf(&self) -> bool {
        sorted_by_name(self@) && plainly_named(self@) && numbered(self@)
    }

    /// The names of the entries, in their order.
    pub open spec fn names(&self) -> Seq<Seq<char>> {
        self@.map_values(|e: EntryView| e.name)
    }

    /// A catalog without entries.
    pub fn empty() -> (res: Catalog)
        ensures
            res.wf(),
            res@.len() == 0,
    {
        Catalog { entries: Vec::new() }
    }

    /// The number of entries.
    pub fn len(&self) -> (n: usize)
        ensures
            n == self@.len(),
    {
        self.entries.len()
    }

    /// The entry at a place of the listing.
    pub fn entry_at(&self, i: usize) -> (res: Option<&CatalogEntry>)
        ensures
            i < self@.len() ==> (res matches Some(e) && e@ == self@[i as int]),
            i >= self@.len() ==> res is None,
    {
        if i < self.entries.len() {
            Some(&self.entries[i])
        } else {
            None
        }
    }

    /// Finds the entry of a name. The name is taken as a request writes
    /// it, in its encoded form.
    pub fn lookup(&self, name: &str) -> (res: Option<&CatalogEntry>)
        requires
            self.wf(),
        ensures
            match res {
                Some(e) => has_name(self@, name@) && e@ == entry_named(self@, name@) && e@.name
                    == name@ && 0 <= e@.id < self@.len() && self@[e@.id as int] == e@,
                None => !has_name(self@, name@),
            },
    {
        if !name.is_ascii() {
            proof {
                if has_name(self@, name@) {
                    let i = choose|i: int| 0 <= i < self@.len() && (#[trigger] self@[i]).name == name@;
                    assert(is_plain(self@[i].name));
                    lemma_plain_is_ascii(self@[i].name);
                }
            }
            return None;
        }
        let (found, at) = search(&self.entries, name);
        if found {
            proof {
                assert(self@[at as int] == self.entries@[at as int]@);
                let i = choose|i: int| 0 <= i < self@.len() && (#[trigger] self@[i]).name == name@;
                if i != at {
                    lemma_sorted_names_differ(self@, i, at as int);
                }
            }
            Some(&self.entries[at])
        } else {
            proof {
                if has_name(self@, name@) {
                    let i = choose|i: int| 0 <= i < self@.len() && (#[trigger] self@[i]).name == name@;
                    lemma_lt_irreflexive(name@);
                    assert(self@[i].name == self.entries@[i].name@);
                }
            }
            None
        }
    }

    /// The names of all entries in their order, which is that of
    /// `name_lt`: no name occurs twice.
    pub fn list(&self) -> (res: Vec<String>)
        requires
            self.wf(),
        ensures
            texts(res@) == self.names(),
            forall|i: int, j: int|
                0 <= i < j < res@.len() ==> name_lt(#[trigger] res@[i]@, #[trigger] res@[j]@),
            forall|i: int, j: int| 0 <= i < j < res@.len() ==> res@[i]@ != res@[j]@,
    {
        let mut out: Vec<String> = Vec::new();
        let mut i: usize = 0;
        while i < self.entries.len()
            invariant
                0 <= i <= self.entries@.len(),
                out@.len() == i,
                forall|k: int| 0 <= k < i ==> (#[trigger] out@[k])@ == self@[k].name,
            decreases self.entries@.len() - i,
        {
            assert(self@[i as int] == self.entries@[i as int]@);
            out.push(self.entries[i].name.clone());
            i += 1;
        }
        proof {
            assert(texts(out@) =~= self.names());
            assert forall|i: int, j: int| 0 <= i < j < out@.len() implies name_lt(
                #[trigger] out@[i]@,
                #[trigger] out@[j]@,
            ) && out@[i]@ != out@[j]@ by {
                assert(name_lt(self@[i].name, self@[j].name));
                lemma_lt_irreflexive(out@[i]@);
            }
        }
        out
    }
}

/// The same entries apart from how they are numbered.
pub open spec fn same_files(v: Seq<EntryView>, w: Seq<EntryView>) -> bool {
    v.len() == w.len() && forall|k: int|
        0 <= k < v.len() ==> (#[trigger] v[k]).name == w[k].name && v[k].path == w[k].path
            && v[k].size == w[k].size
}

/// An entry put between the names before it and the names after it keeps
/// the listing in order.
pub proof fn lemma_insert_sorted(v: Seq<EntryView>, e: EntryView, at: int)
    requires
        0 <= at <= v.len(),
        sorted_by_name(v),
        plainly_named(v),
        is_plain(e.name),
        forall|k: int| 0 <= k < at ==> name_lt(#[trigger] v[k].name, e.name),
        forall|k: int| at <= k < v.len() ==> name_lt(e.name, #[trigger] v[k].name),
    ensures
        sorted_by_name(v.insert(at, e)),
        plainly_named(v.insert(at, e)),
{
    let w = v.insert(at, e);
    assert forall|i: int, j: int| 0 <= i < j < w.len() implies name_lt(
        #[trigger] w[i].name,
        #[trigger] w[j].name,
    ) by {
        if i < at && j > at {
            assert(name_lt(v[i].name, v[j - 1].name) || i == j - 1);
            assert(name_lt(v[i].name, e.name));
            assert(name_lt(e.name, v[j - 1].name));
            lemma_lt_transitive(v[i].name, e.name, v[j - 1].name);
        } else if i < at && j < at {
            assert(name_lt(v[i].name, v[j].name));
        } else if i > at {
            assert(name_lt(v[i - 1].name, v[j - 1].name));
        } else if i == at {
            assert(name_lt(e.name, v[j - 1].name));
        } else {
            assert(name_lt(v[i].name, e.name));
        }
    }
    assert forall|i: int| 0 <= i < w.len() implies is_plain(#[trigger] w[i].name) by {
        if i < at {
            assert(is_plain(v[i].name));
        } else if i > at {
            assert(is_plain(v[i - 1].name));
        }
    }
}

/// Two listings in the order of their names that hold the same names hold
/// them at the same places.
pub proof fn lemma_same_names_same_places(a: Seq<EntryView>, b: Seq<EntryView>)
    requires
        sorted_by_name(a),
        sorted_by_name(b),
        forall|name: Seq<char>| #[trigger] has_name(a, name) <==> has_name(b, name),
    ensures
        a.len() == b.len(),
        forall|i: int| 0 <= i < a.len() ==> (#[trigger] a[i]).name == b[i].name,
    decreases a.len(),
{
    if a.len() == 0 {
        if b.len() > 0 {
            assert(has_name(b, b[0].name));
            assert(has_name(a, b[0].name));
        }
    } else {
        assert(has_name(a, a[0].name));
        assert(has_name(b, a[0].name));
        assert(has_name(b, b[0].name));
        assert(has_name(a, b[0].name));
        let k = choose|k: int| 0 <= k < b.len() && (#[trigger] b[k]).name == a[0].name;
        let m = choose|m: int| 0 <= m < a.len() && (#[trigger] a[m]).name == b[0].name;
        if k > 0 {
            assert(name_lt(b[0].name, b[k].name));
            if m > 0 {
                assert(name_lt(a[0].name, a[m].name));
                lemma_lt_transitive(a[0].name, b[0].name, a[0].name);
            }
            lemma_lt_irreflexive(a[0].name);
        }
        let at = a.drop_first();
        let bt = b.drop_first();
        assert forall|name: Seq<char>| #[trigger] has_name(at, name) <==> has_name(bt, name) by {
            if has_name(at, name) {
                let i = choose|i: int| 0 <= i < at.len() && (#[trigger] at[i]).name == name;
                assert(a[i + 1].name == name);
                lemma_sorted_names_differ(a, 0, i + 1);
                assert(has_name(a, name));
                let j = choose|j: int| 0 <= j < b.len() && (#[trigger] b[j]).name == name;
                assert(bt[j - 1].name == name);
            }
            if has_name(bt, name) {
                let i = choose|i: int| 0 <= i < bt.len() && (#[trigger] bt[i]).name == name;
                assert(b[i + 1].name == name);
                lemma_sorted_names_differ(b, 0, i + 1);
                assert(has_name(b, name));
                assert(has_name(a, name));
                let j = choose|j: int| 0 <= j < a.len() && (#[trigger] a[j]).name == name;
                assert(at[j - 1].name == name);
            }
        }
        assert forall|i: int, j: int| 0 <= i < j < at.len() implies name_lt(
            #[trigger] at[i].name,
            #[trigger] at[j].name,
        ) by {
            assert(name_lt(a[i + 1].name, a[j + 1].name));
        }
        assert forall|i: int, j: int| 0 <= i < j < bt.len() implies name_lt(
            #[trigger] bt[i].name,
            #[trigger] bt[j].name,
        ) by {
            assert(name_lt(b[i + 1].name, b[j + 1].name));
        }
        lemma_same_names_same_places(at, bt);
        assert forall|i: int| 0 <= i < a.len() implies (#[trigger] a[i]).name == b[i].name by {
            if i > 0 {
                assert(at[i - 1].name == bt[i - 1].name);
            }
        }
    }
}

/// The names of a well-formed catalog stand in strictly ascending order, so
/// none occurs twice.
pub proof fn lemma_names_ascend(catalog: Catalog, i: int, j: int)
    requires
        catalog.wf(),
        0 <= i < j < catalog@.len(),
    ensures
        name_lt(catalog.names()[i], catalog.names()[j]),
        catalog.names()[i] != catalog.names()[j],
{
    lemma_sorted_names_differ(catalog@, i, j);
}

/// Numbers entries that stand in the order of their names, and makes the
/// catalog of them.
pub(crate) fn number(entries: Vec<CatalogEntry>) -> (res: Catalog)
    requires
        sorted_by_name(views(entries@)),
        plainly_named(views(entries@)),
    ensures
        res.wf(),
        same_files(views(entries@), res@),
{
    let mut out: Vec<CatalogEntry> = Vec::new();
    let mut k: usize = 0;
    while k < entries.len()
        invariant
            0 <= k <= entries@.len(),
            out@.len() == k,
            forall|j: int| 0 <= j < k ==> (#[trigger] out@[j])@ == (EntryView {
                id: j as u64,
                ..entries@[j]@
            }),
        decreases entries@.len() - k,
    {
        let e = &entries[k];
        out.push(CatalogEntry { id: k as u64, name: e.name.clone(), path: e.path.clone(), size: e.size });
        k += 1;
    }
    let res = Catalog { entries: out };
    proof {
        let v = views(entries@);
        let w = res@;
        assert forall|j: int| 0 <= j < w.len() implies (#[trigger] w[j]).id == j && w[j].name == v[j].name
            && w[j].path == v[j].path && w[j].size == v[j].size by {
            assert(w[j] == out@[j]@);
        }
        assert forall|i: int, j: int| 0 <= i < j < w.len() implies name_lt(
            #[trigger] w[i].name,
            #[trigger] w[j].name,
        ) by {
            assert(name_lt(v[i].name, v[j].name));
        }
        assert forall|j: int| 0 <= j < w.len() implies is_plain(#[trigger] w[j].name) by {
            assert(is_plain(v[j].name));
        }
    }
    res
}

} // verus!
