//! The catalog scanner: from the steps of a walk of the root to the catalog
//! of the image files that the walk came upon.

use crate::catalog::{
    has_name, lemma_insert_sorted, lemma_lt_irreflexive, lemma_same_names_same_places, name_lt,
    number, numbered, plainly_named, same_files, search, sorted_by_name, views, Catalog,
    CatalogEntry, EntryView,
};
use crate::names::{has_listed_extension, is_selected, join_encoded, joined, lemma_plain_is_ascii};
use vstd::prelude::*;
use vstd::string::*;

verus! {

/// A regular file that the walk of the root came upon.
#[derive(Debug)]
pub struct FoundFile {
    /// The components of the file's path below the root, the file's own
    /// name last.
    pub components: Vec<String>,
    /// Where the file lies.
    pub path: String,
    /// The length of the file in bytes.
    pub size: u64,
}

/// One step of the walk of the root, in the order of the walk.
#[derive(Debug)]
pub enum Visit {
    /// A regular file.
    File(FoundFile),
    /// Something below the root that could not be read.
    Failed,
    /// The root itself could not be read.
    RootFailed,
}

impl Visit {
    /// The step that stands for a failure of the walk, by the depth at
    /// which it occurred where that is known: at depth 0 it is the root
    /// itself that could not be read.
    pub fn failure(depth: Option<usize>) -> (res: Visit)
        ensures
            res == if depth == Some(0usize) {
                Visit::RootFailed
            } else {
                Visit::Failed
            },
    {
        match depth {
            Some(0) => Visit::RootFailed,
            _ => Visit::Failed,
        }
    }
}

/// Why a scan gave no catalog.
#[derive(Clone, Copy, Debug, PartialEq, Eq, Structural)]
pub enum ScanError {
    /// The root could not be read.
    RootUnreadable,
}

/// Why a step of the walk left no entry.
#[derive(Clone, Copy, Debug, PartialEq, Eq, Structural)]
pub enum SkipReason {
    /// It could not be read.
    Unreadable,
    /// An earlier file has the same name.
    Duplicate,
}

/// A step of the walk that was passed over, by its place in the walk.
#[derive(Clone, Copy, Debug, PartialEq, Eq)]
pub struct Skipped {
    pub index: usize,
    pub reason: SkipReason,
}

/// What a scan gives: the catalog, and the steps that were passed over.
pub struct Scanned {
    pub catalog: Catalog,
    pub skipped: Vec<Skipped>,
}

/// True when the visit is a file that the filter selects and whose name is
/// `name`.
pub open spec fn offers(visit: Visit, filter: Seq<String>, name: Seq<char>) -> bool {
    visit matches Visit::File(f) && f.components@.len() > 0 && is_selected(
        f.components@.last()@,
        filter,
    ) && joined(f.components@) == name
}

/// The place of the first visit that offers `name`; -1 where none does.
pub open spec fn first_offer(visits: Seq<Visit>, filter: Seq<String>, name: Seq<char>) -> int
    decreases visits.len(),
{
    if visits.len() == 0 {
        -1
    } else {
        let before = first_offer(visits.drop_last(), filter, name);
        if before >= 0 {
            before
        } else if offers(visits.last(), filter, name) {
            visits.len() - 1
        } else {
            -1
        }
    }
}

/// True when the entry records the file of the visit.
pub open spec fn taken_from(entry: EntryView, visit: Visit) -> bool {
    visit matches Visit::File(f) && entry.name == joined(f.components@) && entry.path == f.path@
        && entry.size == f.size
}

/// True when the walk could not read the root.
pub open spec fn root_failed(visits: Seq<Visit>) -> bool {
    exists|i: int| 0 <= i < visits.len() && #[trigger] visits[i] is RootFailed
}

/// What the catalog of a walk holds: under each name that some selected
/// file offers, the first such file of the walk, and nothing else.
pub open spec fn catalog_of(v: Seq<EntryView>, visits: Seq<Visit>, filter: Seq<String>) -> bool {
    &&& forall|name: Seq<char>| #[trigger]
        has_name(v, name) <==> first_offer(visits, filter, name) >= 0
    &&& forall|k: int|
        0 <= k < v.len() ==> {
            let first = first_offer(visits, filter, (#[trigger] v[k]).name);
            0 <= first < visits.len() && taken_from(v[k], visits[first])
        }
}

/// The steps of a walk that leave no entry though something was there:
/// what could not be read, and each selected file whose name an earlier
/// one had offered.
pub open spec fn skipped_of(visits: Seq<Visit>, filter: Seq<String>) -> Seq<Skipped>
    decreases visits.len(),
{
    if visits.len() == 0 {
        Seq::empty()
    } else {
        let before = skipped_of(visits.drop_last(), filter);
        let index = (visits.len() - 1) as usize;
        match visits.last() {
            Visit::Failed => before.push(Skipped { index, reason: SkipReason::Unreadable }),
            Visit::RootFailed => before,
            Visit::File(f) => if offers(visits.last(), filter, joined(f.components@)) && first_offer(
                visits.drop_last(),
                filter,
                joined(f.components@),
            ) >= 0 {
                before.push(Skipped { index, reason: SkipReason::Duplicate })
            } else {
                before
            },
        }
    }
}

/// A step that offers nothing leaves the catalog as it is.
proof fn lemma_unoffered_step(
    v: Seq<EntryView>,
    seen: Seq<Visit>,
    next: Seq<Visit>,
    filter: Seq<String>,
)
    requires
        next.len() > 0,
        next.drop_last() == seen,
        forall|name: Seq<char>| !offers(next.last(), filter, name),
        catalog_of(v, seen, filter),
    ensures
        catalog_of(v, next, filter),
{
    assert forall|name: Seq<char>| #[trigger]
        has_name(v, name) <==> first_offer(next, filter, name) >= 0 by {
        assert(!offers(next.last(), filter, name));
    }
    assert forall|k: int| 0 <= k < v.len() implies {
        let first = first_offer(next, filter, (#[trigger] v[k]).name);
        0 <= first < next.len() && taken_from(v[k], next[first])
    } by {
        let first = first_offer(seen, filter, v[k].name);
        assert(next[first] == seen[first]);
    }
}

/// A step that offers a name which the catalog holds leaves the catalog as
/// it is.
proof fn lemma_repeated_step(
    v: Seq<EntryView>,
    seen: Seq<Visit>,
    next: Seq<Visit>,
    filter: Seq<String>,
    name: Seq<char>,
)
    requires
        next.len() > 0,
        next.drop_last() == seen,
        offers(next.last(), filter, name),
        has_name(v, name),
        catalog_of(v, seen, filter),
    ensures
        catalog_of(v, next, filter),
{
    assert forall|other: Seq<char>| #[trigger]
        has_name(v, other) <==> first_offer(next, filter, other) >= 0 by {
        if other != name {
            assert(!offers(next.last(), filter, other));
        }
    }
    assert forall|k: int| 0 <= k < v.len() implies {
        let first = first_offer(next, filter, (#[trigger] v[k]).name);
        0 <= first < next.len() && taken_from(v[k], next[first])
    } by {
        let first = first_offer(seen, filter, v[k].name);
        assert(next[first] == seen[first]);
    }
}

/// A step that offers a name which the catalog lacks adds the entry of
/// that step.
proof fn lemma_new_step(
    v: Seq<EntryView>,
    seen: Seq<Visit>,
    next: Seq<Visit>,
    filter: Seq<String>,
    e: EntryView,
    at: int,
)
    requires
        next.len() > 0,
        next.drop_last() == seen,
        offers(next.last(), filter, e.name),
        taken_from(e, next.last()),
        !has_name(v, e.name),
        0 <= at <= v.len(),
        catalog_of(v, seen, filter),
    ensures
        catalog_of(v.insert(at, e), next, filter),
{
    let w = v.insert(at, e);
    assert forall|name: Seq<char>| #[trigger]
        has_name(w, name) <==> first_offer(next, filter, name) >= 0 by {
        if name == e.name {
            assert(w[at].name == name);
        } else {
            assert(!offers(next.last(), filter, name));
            if has_name(v, name) {
                let k = choose|k: int| 0 <= k < v.len() && (#[trigger] v[k]).name == name;
                if k < at {
                    assert(w[k].name == name);
                } else {
                    assert(w[k + 1].name == name);
                }
            }
            if has_name(w, name) {
                let k = choose|k: int| 0 <= k < w.len() && (#[trigger] w[k]).name == name;
                if k < at {
                    assert(v[k].name == name);
                } else {
                    assert(v[k - 1].name == name);
                }
            }
        }
    }
    assert forall|k: int| 0 <= k < w.len() implies {
        let first = first_offer(next, filter, (#[trigger] w[k]).name);
        0 <= first < next.len() && taken_from(w[k], next[first])
    } by {
        if k == at {
        } else {
            let j = if k < at { k } else { k - 1 };
            assert(w[k] == v[j]);
            let first = first_offer(seen, filter, v[j].name);
            assert(next[first] == seen[first]);
        }
    }
}

/// What holds of a catalog's files holds however they are numbered.
proof fn lemma_catalog_of_renumbered(
    v: Seq<EntryView>,
    w: Seq<EntryView>,
    visits: Seq<Visit>,
    filter: Seq<String>,
)
    requires
        same_files(v, w),
        catalog_of(v, visits, filter),
    ensures
        catalog_of(w, visits, filter),
{
    assert forall|name: Seq<char>| #[trigger]
        has_name(w, name) <==> first_offer(visits, filter, name) >= 0 by {
        if has_name(v, name) {
            let k = choose|k: int| 0 <= k < v.len() && (#[trigger] v[k]).name == name;
            assert(w[k].name == name);
        }
        if has_name(w, name) {
            let k = choose|k: int| 0 <= k < w.len() && (#[trigger] w[k]).name == name;
            assert(v[k].name == name);
        }
    }
    assert forall|k: int| 0 <= k < w.len() implies {
        let first = first_offer(visits, filter, (#[trigger] w[k]).name);
        0 <= first < visits.len() && taken_from(w[k], visits[first])
    } by {
        assert(v[k].name == w[k].name);
    }
}

/// A walk has one catalog: scanning the same walk again gives the same
/// entries under the same names at the same places.
pub proof fn lemma_scan_is_determined(
    a: Seq<EntryView>,
    b: Seq<EntryView>,
    visits: Seq<Visit>,
    filter: Seq<String>,
)
    requires
        sorted_by_name(a),
        numbered(a),
        catalog_of(a, visits, filter),
        sorted_by_name(b),
        numbered(b),
        catalog_of(b, visits, filter),
    ensures
        a == b,
{
    assert forall|name: Seq<char>| #[trigger] has_name(a, name) <==> has_name(b, name) by {
        assert(has_name(a, name) <==> first_offer(visits, filter, name) >= 0);
        assert(has_name(b, name) <==> first_offer(visits, filter, name) >= 0);
    }
    lemma_same_names_same_places(a, b);
    assert forall|i: int| 0 <= i < a.len() implies a[i] == b[i] by {
        let first = first_offer(visits, filter, a[i].name);
        assert(taken_from(a[i], visits[first]));
        assert(b[i].name == a[i].name);
        assert(taken_from(b[i], visits[first]));
    }
    assert(a =~= b);
}

/// A name has a first offer exactly where some step of the walk offers it,
/// and its first offer is such a step.
pub proof fn lemma_first_offer(visits: Seq<Visit>, filter: Seq<String>, name: Seq<char>)
    ensures
        -1 <= first_offer(visits, filter, name) < visits.len(),
        first_offer(visits, filter, name) >= 0 ==> offers(
            visits[first_offer(visits, filter, name)],
            filter,
            name,
        ),
        forall|i: int|
            0 <= i < visits.len() && offers(#[trigger] visits[i], filter, name) ==> first_offer(
                visits,
                filter,
                name,
            ) >= 0,
    decreases visits.len(),
{
    if visits.len() > 0 {
        let before = visits.drop_last();
        lemma_first_offer(before, filter, name);
        assert forall|i: int|
            0 <= i < visits.len() && offers(#[trigger] visits[i], filter, name) implies first_offer(
            visits,
            filter,
            name,
        ) >= 0 by {
            if i < before.len() {
                assert(before[i] == visits[i]);
            }
        }
    }
}

/// True when no two different files of the walk are offered under one name.
pub open spec fn unambiguous(visits: Seq<Visit>, filter: Seq<String>) -> bool {
    forall|i: int, j: int, name: Seq<char>|
        0 <= i < visits.len() && 0 <= j < visits.len() && #[trigger] offers(visits[i], filter, name)
            && #[trigger] offers(visits[j], filter, name) ==> visits[i] == visits[j]
}

/// The catalog does not depend on the order of the walk: two walks that
/// came upon the same files, none of which shares its name with another,
/// have the same catalog.
pub proof fn lemma_scan_ignores_order(
    a: Seq<EntryView>,
    b: Seq<EntryView>,
    first: Seq<Visit>,
    second: Seq<Visit>,
    filter: Seq<String>,
)
    requires
        forall|v: Visit| first.contains(v) <==> second.contains(v),
        unambiguous(first, filter),
        sorted_by_name(a),
        numbered(a),
        catalog_of(a, first, filter),
        sorted_by_name(b),
        numbered(b),
        catalog_of(b, second, filter),
    ensures
        a == b,
{
    assert forall|name: Seq<char>| #[trigger] has_name(a, name) <==> has_name(b, name) by {
        lemma_first_offer(first, filter, name);
        lemma_first_offer(second, filter, name);
        let f = first_offer(first, filter, name);
        let s = first_offer(second, filter, name);
        assert(has_name(a, name) <==> f >= 0);
        assert(has_name(b, name) <==> s >= 0);
        if f >= 0 {
            assert(first.contains(first[f]));
            let j = choose|j: int| 0 <= j < second.len() && second[j] == first[f];
            assert(offers(second[j], filter, name));
        }
        if s >= 0 {
            assert(second.contains(second[s]));
            let j = choose|j: int| 0 <= j < first.len() && first[j] == second[s];
            assert(offers(first[j], filter, name));
        }
    }
    lemma_same_names_same_places(a, b);
    assert forall|i: int| 0 <= i < a.len() implies a[i] == b[i] by {
        let name = a[i].name;
        assert(b[i].name == name);
        lemma_first_offer(first, filter, name);
        lemma_first_offer(second, filter, name);
        let f = first_offer(first, filter, name);
        let s = first_offer(second, filter, name);
        assert(taken_from(a[i], first[f]));
        assert(taken_from(b[i], second[s]));
        assert(second.contains(second[s]));
        let j = choose|j: int| 0 <= j < first.len() && first[j] == second[s];
        assert(offers(first[j], filter, name));
        assert(first[j] == first[f]);
    }
    assert(a =~= b);
}

/// Builds the catalog of a walk.
///
/// A file is taken when the filter lists its extension. Its name is made
/// of the components of its path below the root; of several files with one
/// name the first of the walk is taken. The walk fails as a whole only
/// where the root could not be read.
pub fn scan(visits: &Vec<Visit>, filter: &Vec<String>) -> (res: Result<Scanned, ScanError>)
    ensures
        match res {
            Ok(s) => {
                &&& !root_failed(visits@)
                &&& s.catalog.wf()
                &&& catalog_of(s.catalog@, visits@, filter@)
                &&& s.skipped@ == skipped_of(visits@, filter@)
            },
            Err(e) => root_failed(visits@),
        },
{
    let mut entries: Vec<CatalogEntry> = Vec::new();
    let mut skipped: Vec<Skipped> = Vec::new();
    let mut i: usize = 0;
    assert(visits@.take(0) =~= Seq::<Visit>::empty());
    while i < visits.len()
        invariant
            0 <= i <= visits@.len(),
            sorted_by_name(views(entries@)),
            plainly_named(views(entries@)),
            catalog_of(views(entries@), visits@.take(i as int), filter@),
            skipped@ == skipped_of(visits@.take(i as int), filter@),
            forall|j: int| 0 <= j < i ==> !(#[trigger] visits@[j] is RootFailed),
        decreases visits@.len() - i,
    {
        let ghost seen = visits@.take(i as int);
        let ghost next = visits@.take(i + 1);
        let ghost old_v = views(entries@);
        let ghost old_entries = entries@;
        proof {
            assert(next.drop_last() =~= seen);
            assert(next.last() == visits@[i as int]);
        }
        match &visits[i] {
            Visit::RootFailed => {
                return Err(ScanError::RootUnreadable);
            },
            Visit::Failed => {
                skipped.push(Skipped { index: i, reason: SkipReason::Unreadable });
                proof {
                    lemma_unoffered_step(old_v, seen, next, filter@);
                    assert(skipped@ == skipped_of(next, filter@));
                }
            },
            Visit::File(f) => {
                let n = f.components.len();
                if n > 0 && has_listed_extension(f.components[n - 1].as_str(), filter) {
                    let name = join_encoded(&f.components);
                    proof {
                        lemma_plain_is_ascii(name@);
                    }
                    let (found, at) = search(&entries, name.as_str());
                    if found {
                        skipped.push(Skipped { index: i, reason: SkipReason::Duplicate });
                        proof {
                            assert(old_v[at as int].name == name@);
                            assert(has_name(old_v, name@));
                            lemma_repeated_step(old_v, seen, next, filter@, name@);
                            assert(first_offer(seen, filter@, name@) >= 0);
                            assert(skipped@ == skipped_of(next, filter@));
                        }
                    } else {
                        let entry = CatalogEntry { id: 0, name, path: f.path.clone(), size: f.size };
                        let ghost e = entry@;
                        entries.insert(at, entry);
                        proof {
                            assert(views(entries@) =~= old_v.insert(at as int, e));
                            assert forall|k: int| 0 <= k < at implies name_lt(
                                #[trigger] old_v[k].name,
                                e.name,
                            ) by {
                                assert(old_v[k].name == old_entries[k].name@);
                            }
                            assert forall|k: int| at <= k < old_v.len() implies name_lt(
                                e.name,
                                #[trigger] old_v[k].name,
                            ) by {
                                assert(old_v[k].name == old_entries[k].name@);
                            }
                            if has_name(old_v, e.name) {
                                let k = choose|k: int|
                                    0 <= k < old_v.len() && (#[trigger] old_v[k]).name == e.name;
                                lemma_lt_irreflexive(e.name);
                            }
                            lemma_insert_sorted(old_v, e, at as int);
                            lemma_new_step(old_v, seen, next, filter@, e, at as int);
                            assert(first_offer(seen, filter@, e.name) < 0);
                            assert(skipped@ == skipped_of(next, filter@));
                        }
                    }
                } else {
                    proof {
                        lemma_unoffered_step(old_v, seen, next, filter@);
                        assert(skipped@ == skipped_of(next, filter@));
                    }
                }
            },
        }
        i += 1;
    }
    assert(visits@.take(i as int) =~= visits@);
    let ghost unnumbered = views(entries@);
    let catalog = number(entries);
    proof {
        lemma_catalog_of_renumbered(unnumbered, catalog@, visits@, filter@);
    }
    Ok(Scanned { catalog, skipped })
}

} // verus!
