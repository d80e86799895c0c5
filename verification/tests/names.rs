use rumd::names::{has_listed_extension, join_encoded, push_encoded};

fn strings(items: &[&str]) -> Vec<String> {
    items.iter().map(|s| s.to_string()).collect()
}

#[test]
fn blanks_are_escaped() {
    assert_eq!(
        join_encoded(&strings(&["Crisis Core - Final Fantasy VII (USA).iso"])),
        "Crisis%20Core%20-%20Final%20Fantasy%20VII%20(USA).iso"
    );
    assert_eq!(
        join_encoded(&strings(&["Monster Hunter Freedom Unite (USA) (En,Fr,De,Es,It).iso"])),
        "Monster%20Hunter%20Freedom%20Unite%20(USA)%20(En,Fr,De,Es,It).iso"
    );
}

#[test]
fn plain_names_stay_as_they_are() {
    assert_eq!(
        join_encoded(&strings(&["Metal_Gear_Solid_Peace_Walker_USA_PSP-pSyPSP.iso"])),
        "Metal_Gear_Solid_Peace_Walker_USA_PSP-pSyPSP.iso"
    );
    assert_eq!(join_encoded(&strings(&["a%20b.iso"])), "a%20b.iso");
    assert_eq!(join_encoded(&strings(&["!~.iso"])), "!~.iso");
}

#[test]
fn controls_and_other_scripts_are_escaped() {
    assert_eq!(join_encoded(&strings(&["a\tb\n.iso"])), "a%09b%0A.iso");
    assert_eq!(join_encoded(&strings(&["\u{7f}"])), "%7F");
    assert_eq!(join_encoded(&strings(&["\u{0}\u{1f}"])), "%00%1F");
    assert_eq!(join_encoded(&strings(&["é.iso"])), "%C3%A9.iso");
    assert_eq!(join_encoded(&strings(&["日本.iso"])), "%E6%97%A5%E6%9C%AC.iso");
}

#[test]
fn components_are_joined_by_slashes() {
    assert_eq!(join_encoded(&strings(&["psp", "rpg", "a b.iso"])), "psp/rpg/a%20b.iso");
    assert_eq!(join_encoded(&strings(&["one"])), "one");
    assert_eq!(join_encoded(&strings(&[])), "");
    assert_eq!(join_encoded(&strings(&["", "x"])), "/x");
}

#[test]
fn encoding_appends_to_what_is_there() {
    let mut out = String::from("/");
    push_encoded(&mut out, "a b");
    assert_eq!(out, "/a%20b");
    push_encoded(&mut out, "");
    assert_eq!(out, "/a%20b");
}

#[test]
fn extensions_are_matched_in_any_case() {
    let filter = strings(&["iso"]);
    assert!(has_listed_extension("game.iso", &filter));
    assert!(has_listed_extension("game.ISO", &filter));
    assert!(has_listed_extension("game.Iso", &filter));
    assert!(has_listed_extension("a.b.iso", &filter));
    assert!(has_listed_extension("game.iso", &strings(&["ISO"])));
    assert!(has_listed_extension("game.cso", &strings(&["iso", "cso"])));
}

#[test]
fn other_files_are_not_selected() {
    let filter = strings(&["iso"]);
    assert!(!has_listed_extension("game.cso", &filter));
    assert!(!has_listed_extension("game.iso.txt", &filter));
    assert!(!has_listed_extension("gameiso", &filter));
    assert!(!has_listed_extension("iso", &filter));
    assert!(!has_listed_extension(".iso", &filter));
    assert!(!has_listed_extension("game.iso ", &filter));
    assert!(!has_listed_extension("game.is", &filter));
    assert!(!has_listed_extension("game.isoo", &filter));
    assert!(!has_listed_extension("", &filter));
    assert!(!has_listed_extension("game.iso", &strings(&[])));
    assert!(!has_listed_extension("game.", &filter));
    assert!(has_listed_extension("game.", &strings(&[""])));
}
