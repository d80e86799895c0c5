use rumd::catalog::Catalog;
use rumd::scan::{scan, FoundFile, ScanError, SkipReason, Skipped, Visit};

fn strings(items: &[&str]) -> Vec<String> {
    items.iter().map(|s| s.to_string()).collect()
}

fn file(components: &[&str], path: &str, size: u64) -> Visit {
    Visit::File(FoundFile { components: strings(components), path: path.to_string(), size })
}

fn iso() -> Vec<String> {
    strings(&["iso"])
}

fn sample() -> Vec<Visit> {
    vec![
        file(&["readme.txt"], "/r/readme.txt", 12),
        file(&["zelda.iso"], "/r/zelda.iso", 300),
        file(&["psp", "a b.iso"], "/r/psp/a b.iso", 200),
        Visit::Failed,
        file(&["Mario.ISO"], "/r/Mario.ISO", 100),
        file(&["psp", "a%20b.iso"], "/r/psp/a%20b.iso", 999),
        file(&["zelda.iso"], "/r/other/zelda.iso", 301),
    ]
}

#[test]
fn scan_lists_selected_files_in_name_order() {
    let scanned = scan(&sample(), &iso()).unwrap();
    assert_eq!(scanned.catalog.list(), vec!["Mario.ISO", "psp/a%20b.iso", "zelda.iso"]);
    assert_eq!(scanned.catalog.len(), 3);
}

#[test]
fn scan_numbers_entries_by_place() {
    let scanned = scan(&sample(), &iso()).unwrap();
    for i in 0..3 {
        assert_eq!(scanned.catalog.entry_at(i).unwrap().id, i as u64);
    }
    assert!(scanned.catalog.entry_at(3).is_none());
}

#[test]
fn scan_keeps_the_first_of_equal_names() {
    let scanned = scan(&sample(), &iso()).unwrap();
    let zelda = scanned.catalog.lookup("zelda.iso").unwrap();
    assert_eq!(zelda.path, "/r/zelda.iso");
    assert_eq!(zelda.size, 300);
    let ab = scanned.catalog.lookup("psp/a%20b.iso").unwrap();
    assert_eq!(ab.path, "/r/psp/a b.iso");
    assert_eq!(ab.size, 200);
}

#[test]
fn scan_reports_what_it_passed_over() {
    let scanned = scan(&sample(), &iso()).unwrap();
    assert_eq!(
        scanned.skipped,
        vec![
            Skipped { index: 3, reason: SkipReason::Unreadable },
            Skipped { index: 5, reason: SkipReason::Duplicate },
            Skipped { index: 6, reason: SkipReason::Duplicate },
        ]
    );
}

#[test]
fn scan_fails_when_the_root_cannot_be_read() {
    let visits = vec![file(&["a.iso"], "/r/a.iso", 1), Visit::RootFailed];
    assert_eq!(scan(&visits, &iso()).err(), Some(ScanError::RootUnreadable));
    assert_eq!(scan(&vec![Visit::RootFailed], &iso()).err(), Some(ScanError::RootUnreadable));
}

#[test]
fn only_a_failure_at_the_root_is_the_roots() {
    assert!(matches!(Visit::failure(Some(0)), Visit::RootFailed));
    assert!(matches!(Visit::failure(Some(1)), Visit::Failed));
    assert!(matches!(Visit::failure(Some(7)), Visit::Failed));
    assert!(matches!(Visit::failure(None), Visit::Failed));
    let visits = vec![file(&["a.iso"], "/r/a.iso", 1), Visit::failure(Some(2))];
    assert_eq!(scan(&visits, &iso()).unwrap().catalog.list(), vec!["a.iso"]);
    let failed = vec![Visit::failure(Some(0))];
    assert_eq!(scan(&failed, &iso()).err(), Some(ScanError::RootUnreadable));
}

#[test]
fn scan_of_nothing_is_an_empty_catalog() {
    let scanned = scan(&Vec::new(), &iso()).unwrap();
    assert_eq!(scanned.catalog.len(), 0);
    assert!(scanned.catalog.list().is_empty());
    assert!(scanned.skipped.is_empty());
    assert!(scanned.catalog.lookup("a.iso").is_none());
    assert_eq!(Catalog::empty().len(), 0);
}

#[test]
fn scan_passes_over_files_without_components() {
    let visits = vec![file(&[], "/r", 1), file(&["a.iso"], "/r/a.iso", 2)];
    let scanned = scan(&visits, &iso()).unwrap();
    assert_eq!(scanned.catalog.list(), vec!["a.iso"]);
    assert!(scanned.skipped.is_empty());
}

#[test]
fn lookup_finds_exactly_the_listed_names() {
    let scanned = scan(&sample(), &iso()).unwrap();
    for name in scanned.catalog.list() {
        assert_eq!(scanned.catalog.lookup(&name).unwrap().name, name);
    }
    for name in ["", "mario.iso", "Mario.IS", "Mario.ISO ", "psp/a b.iso", "readme.txt", "zelda.isó"] {
        assert!(scanned.catalog.lookup(name).is_none(), "{:?}", name);
    }
}

#[test]
fn listing_never_repeats_a_name_and_is_the_same_each_time() {
    let mut visits = sample();
    visits.extend(sample());
    let scanned = scan(&visits, &iso()).unwrap();
    let first = scanned.catalog.list();
    let second = scanned.catalog.list();
    assert_eq!(first, second);
    for i in 1..first.len() {
        assert!(first[i - 1] < first[i]);
    }
}

#[test]
fn rescanning_an_unchanged_walk_gives_the_same_catalog() {
    let first = scan(&sample(), &iso()).unwrap();
    let second = scan(&sample(), &iso()).unwrap();
    assert_eq!(first.catalog.len(), second.catalog.len());
    for i in 0..first.catalog.len() {
        let a = first.catalog.entry_at(i).unwrap();
        let b = second.catalog.entry_at(i).unwrap();
        assert_eq!((a.id, &a.name, &a.path, a.size), (b.id, &b.name, &b.path, b.size));
    }
    assert_eq!(first.skipped, second.skipped);
}

#[test]
fn many_files_come_out_in_order() {
    let mut visits = Vec::new();
    for i in (0..200u64).rev() {
        let name = format!("disc {:03}.iso", (i * 37) % 200);
        visits.push(file(&[name.as_str()], "/r/x", i));
    }
    let scanned = scan(&visits, &iso()).unwrap();
    let names = scanned.catalog.list();
    assert_eq!(names.len(), 200);
    for i in 0..200 {
        assert_eq!(names[i], format!("disc%20{:03}.iso", i));
        assert_eq!(scanned.catalog.lookup(&names[i]).unwrap().id, i as u64);
    }
}

#[test]
fn the_order_of_the_walk_does_not_matter_without_equal_names() {
    let forward = vec![
        file(&["a.iso"], "/r/a.iso", 1),
        file(&["dir", "b.iso"], "/r/dir/b.iso", 2),
        file(&["notes.txt"], "/r/notes.txt", 3),
        file(&["c d.iso"], "/r/c d.iso", 4),
    ];
    let backward = vec![
        file(&["c d.iso"], "/r/c d.iso", 4),
        file(&["notes.txt"], "/r/notes.txt", 3),
        file(&["dir", "b.iso"], "/r/dir/b.iso", 2),
        file(&["a.iso"], "/r/a.iso", 1),
    ];
    let first = scan(&forward, &iso()).unwrap().catalog;
    let second = scan(&backward, &iso()).unwrap().catalog;
    assert_eq!(first.list(), vec!["a.iso", "c%20d.iso", "dir/b.iso"]);
    assert_eq!(first.list(), second.list());
    for i in 0..first.len() {
        let a = first.entry_at(i).unwrap();
        let b = second.entry_at(i).unwrap();
        assert_eq!((a.id, &a.name, &a.path, a.size), (b.id, &b.name, &b.path, b.size));
    }
}
