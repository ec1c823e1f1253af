use filo::model::{FileEntry, Timestamp};
use filo::recommend::{chosen_paths, CleanupKind, CleanupSuggestion, Safety};
use filo::scan::entry_for;
use filo::selection::Selection;

fn entry(path: &str) -> FileEntry {
    entry_for(path.to_string(), false, 1, Timestamp { secs: 0, nanos: 0 })
}

fn strings(xs: &[&str]) -> Vec<String> {
    xs.iter().map(|s| s.to_string()).collect()
}

fn suggestion(paths: &[&str]) -> CleanupSuggestion {
    CleanupSuggestion {
        kind: CleanupKind::Junk,
        title: String::new(),
        reason: String::new(),
        reclaimable: 0,
        safety: Safety::Safe,
        paths: strings(paths),
    }
}

#[test]
fn toggling_twice_leaves_the_selection_as_it_was() {
    let mut s = Selection::new();
    let a = "d/a.txt".to_string();
    s.toggle(&a);
    assert!(s.contains(&a));
    assert_eq!(s.len(), 1);
    s.toggle(&a);
    assert!(!s.contains(&a));
    assert_eq!(s.len(), 0);
}

#[test]
fn ticking_a_path_twice_holds_it_once() {
    let mut s = Selection::new();
    let a = "a".to_string();
    s.set(&a, true);
    s.set(&a, true);
    assert_eq!(s.len(), 1);
    s.set(&a, false);
    assert_eq!(s.len(), 0);
}

#[test]
fn select_all_replaces_the_selection_with_the_listing() {
    let mut s = Selection::new();
    s.set(&"elsewhere".to_string(), true);
    s.select_all(&vec![entry("d/b"), entry("d/a"), entry("d/b")]);
    assert_eq!(s.sorted(), strings(&["d/a", "d/b"]));
    s.clear();
    assert_eq!(s.len(), 0);
}

#[test]
fn a_refresh_drops_what_is_no_longer_listed() {
    let mut s = Selection::new();
    for p in ["d/a", "d/gone", "d/c"] {
        s.set(&p.to_string(), true);
    }
    s.retain_listed(&vec![entry("d/a"), entry("d/b"), entry("d/c")]);
    assert_eq!(s.sorted(), strings(&["d/a", "d/c"]));
}

#[test]
fn the_snapshot_is_in_path_order() {
    let mut s = Selection::new();
    for p in ["z", "a.b", "a/b", "m"] {
        s.set(&p.to_string(), true);
    }
    assert_eq!(s.sorted(), strings(&["a/b", "a.b", "m", "z"]));
}

#[test]
fn everything_a_suggestion_names_starts_ticked() {
    let items = vec![suggestion(&["x", "y"]), suggestion(&["y", "z"])];
    let mut s = Selection::from_cleanup(&items);
    assert_eq!(s.len(), 3);
    s.set_all(&items[0].paths, false);
    assert_eq!(s.sorted(), strings(&["z"]));
    assert_eq!(s.count_in(&items[1].paths), 1);
    assert_eq!(chosen_paths(&items[1], &s.sorted()), strings(&["z"]));
    s.set_all(&items[0].paths, true);
    assert_eq!(s.count_in(&items[1].paths), 2);
    assert_eq!(s.count_in(&strings(&["x", "x", "q"])), 2);
}
