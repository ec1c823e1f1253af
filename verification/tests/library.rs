use filo::cleanup::{cleanup_suggestions, extraction_candidates, find_for, Finding};
use filo::dedupe::{
    find_duplicates, find_duplicates_in, full_hashes_needed, group_by_hash, head_hashes_needed,
    DuplicateGroup,
};
use filo::error::FiloError;
use filo::grouping::{files_with_company, preview_of, subfolder_for, subfolder_groups, tally_folders};
use filo::hashing::content_hash;
use filo::history::{History, LogLine};
use filo::model::{age_in_days, FileEntry, Operation, OperationKind, Timestamp};
use filo::ops::{add_target, move_path_no_clobber, rename_target, require_exists, trash_spot_for};
use filo::organize::{organize_targets, OrganizeStrategy};
use filo::recommend::{
    all_groupings, chosen_paths, config_files, describe_bytes, keeper_of, looks_like_a_copy,
    original_name, rank_of, AdviceConfig, CleanupKind, CleanupSuggestion, Grouping, Safety,
};
use filo::rename::{check_collisions, rename_schedule, rename_targets, RenamePlan, RenameSpec};
use filo::rules::{expand_placeholders, Matcher, Rule, RuleSet};
use filo::scan::{entry_for, noise_dirs, project_marker, skips_dir, sort_listing};
use filo::undo::{after_failed_redo, after_failed_undo, reverse_steps, replay_steps, AfterFailure, FsStep, UndoPlan};
use filo::units::human_size;
use filo::Filo;

const DAY: i64 = 86400;
/// 2026-05-04 12:00 UTC.
const MAY_4: i64 = 1777896000;

fn at(secs: i64) -> Timestamp {
    Timestamp { secs, nanos: 0 }
}

fn file(path: &str, size: u64, secs: i64) -> FileEntry {
    entry_for(path.to_string(), false, size, at(secs))
}

fn folder(path: &str) -> FileEntry {
    entry_for(path.to_string(), true, 0, at(MAY_4))
}

fn strings(xs: &[&str]) -> Vec<String> {
    xs.iter().map(|s| s.to_string()).collect()
}

/// The byte count as floating-point formatting writes it, one decimal past the unit.
fn float_size(bytes: u64) -> String {
    let units = ["B", "KB", "MB", "GB", "TB"];
    let mut size = bytes as f64;
    let mut unit = 0;
    while size >= 1024.0 && unit < units.len() - 1 {
        size /= 1024.0;
        unit += 1;
    }
    if unit == 0 {
        format!("{bytes} B")
    } else {
        format!("{size:.1} {}", units[unit])
    }
}

#[test]
fn human_size_reads_like_a_person_writes() {
    assert_eq!(human_size(0), "0 B");
    assert_eq!(human_size(512), "512 B");
    assert_eq!(human_size(1023), "1023 B");
    assert_eq!(human_size(1024), "1.0 KB");
    assert_eq!(human_size(1536), "1.5 KB");
    assert_eq!(human_size(3 * 1024 * 1024 * 1024), "3.0 GB");
    assert_eq!(human_size(100 * 1024 * 1024), "100.0 MB");
}

#[test]
fn human_size_matches_float_formatting() {
    let samples: [u64; 16] = [
        1280,
        1075,
        1126,
        10239,
        1048575,
        1048576,
        1572864,
        123456789,
        1099511627775,
        1099511627776,
        5 * 1099511627776 + 123,
        2000 * 1099511627776,
        u64::MAX,
        u64::MAX - 1,
        9007199254740993,
        18014398509481985,
    ];
    for b in samples {
        assert_eq!(human_size(b), float_size(b), "for {b} bytes");
        assert_eq!(describe_bytes(b), float_size(b), "for {b} bytes");
    }
    let mut b: u64 = 1;
    while b < u64::MAX / 3 {
        assert_eq!(human_size(b), float_size(b), "for {b} bytes");
        assert_eq!(human_size(b + 1), float_size(b + 1), "for {} bytes", b + 1);
        b = b * 3 + 7;
    }
}

#[test]
fn copy_markers_are_stripped() {
    assert_eq!(original_name("report (1).pdf"), Some("report.pdf".to_string()));
    assert_eq!(original_name("report - Copy.pdf"), Some("report.pdf".to_string()));
    assert_eq!(original_name("report copy.txt"), Some("report.txt".to_string()));
    assert_eq!(original_name("report-copy"), Some("report".to_string()));
    assert_eq!(original_name("notes (12)"), Some("notes".to_string()));
    assert_eq!(original_name("REPORT - COPY.PDF"), Some("REPORT.PDF".to_string()));
    assert_eq!(original_name("report.pdf"), None);
    assert_eq!(original_name(" (1).pdf"), None);
    assert_eq!(original_name("a (x).pdf"), None);
    assert!(looks_like_a_copy("photo (3).jpg"));
    assert!(!looks_like_a_copy("photo.jpg"));
}

#[test]
fn the_keeper_is_the_original_then_the_shortest_name() {
    assert_eq!(keeper_of(&strings(&["d/invoice (1).pdf", "d/invoice.pdf"])), 1);
    assert_eq!(keeper_of(&strings(&["b/x.txt", "a/x.txt"])), 0);
    assert_eq!(keeper_of(&strings(&["a/long_name.txt", "b/s.txt"])), 1);
    assert_eq!(keeper_of(&strings(&["z/b.txt", "y/a.txt"])), 0, "equal lengths: the earliest path");
    assert_eq!(keeper_of(&strings(&["/a/z.txt", "/b/y.txt"])), 0);
    assert_eq!(keeper_of(&Vec::new()), 0);
}

fn now() -> Timestamp {
    at(MAY_4 + 10 * DAY)
}

fn find_kind<'a>(all: &'a [CleanupSuggestion], kind: CleanupKind) -> Option<&'a CleanupSuggestion> {
    all.iter().find(|c| c.kind == kind)
}

#[test]
fn no_file_is_ever_proposed_for_deletion_twice() {
    let below = vec![
        file("d/invoice.pdf", 4, MAY_4),
        file("d/invoice (1).pdf", 4, MAY_4),
        file("d/invoice (2).pdf", 9, MAY_4),
    ];
    let groups = vec![DuplicateGroup {
        hash: "h".to_string(),
        size: 4,
        paths: strings(&["d/invoice (1).pdf", "d/invoice.pdf"]),
    }];
    let config = AdviceConfig::default();
    let out = cleanup_suggestions(
        &below,
        &groups,
        &"d/.filo".to_string(),
        &Vec::new(),
        &Vec::new(),
        &config,
        &now(),
    );
    assert_eq!(out.len(), 2);
    assert_eq!(out[0].kind, CleanupKind::CopyClutter);
    assert_eq!(out[0].title, "1 duplicated-by-name file(s)");
    assert_eq!(out[0].reason, "each sits next to the file it was copied from \u{2014} 9 B in total");
    assert_eq!(out[0].paths, strings(&["d/invoice (2).pdf"]));
    assert_eq!(out[0].safety, Safety::Review);
    assert_eq!(out[1].kind, CleanupKind::Duplicates);
    assert_eq!(out[1].title, "1 redundant copies");
    assert_eq!(
        out[1].reason,
        "1 group(s) of byte-identical files; keeping the first of each frees 4 B"
    );
    assert_eq!(out[1].paths, strings(&["d/invoice (1).pdf"]));
    assert_eq!(out[1].reclaimable, 4);
    assert_eq!(out[1].safety, Safety::Safe);
    let mut seen = std::collections::HashSet::new();
    for s in &out {
        for p in &s.paths {
            assert!(seen.insert(p.clone()), "{p} proposed twice");
        }
    }
    assert!(!seen.contains("d/invoice.pdf"));
}

#[test]
fn advice_spots_duplicates_junk_and_empties_but_spares_placeholders() {
    let below = vec![
        file("d/a.txt", 9, MAY_4),
        file("d/b.txt", 9, MAY_4),
        file("d/Thumbs.db", 4, MAY_4),
        file("d/notes.bak", 6, MAY_4),
        file("d/blank.txt", 0, MAY_4),
        file("d/.gitkeep", 0, MAY_4),
    ];
    let groups = vec![DuplicateGroup {
        hash: "h".to_string(),
        size: 9,
        paths: strings(&["d/a.txt", "d/b.txt"]),
    }];
    let config = AdviceConfig::default();
    let out = cleanup_suggestions(
        &below,
        &groups,
        &"d/.filo".to_string(),
        &Vec::new(),
        &Vec::new(),
        &config,
        &now(),
    );
    let kinds: Vec<CleanupKind> = out.iter().map(|c| c.kind).collect();
    assert_eq!(
        kinds,
        vec![CleanupKind::Duplicates, CleanupKind::Junk, CleanupKind::Junk, CleanupKind::Empty]
    );
    assert_eq!(out[0].paths, strings(&["d/b.txt"]));
    assert_eq!(out[1].title, "1 backup or log file(s)");
    assert_eq!(out[1].safety, Safety::Review);
    assert_eq!(out[1].reason, "usually disposable, but check nothing still reads them");
    assert_eq!(out[2].title, "1 throwaway file(s)");
    assert_eq!(out[2].paths, strings(&["d/Thumbs.db"]));
    assert_eq!(
        out[2].reason,
        "system clutter and half-finished downloads that nothing depends on"
    );
    assert_eq!(out[3].title, "1 empty file(s)");
    assert_eq!(out[3].paths, strings(&["d/blank.txt"]));
    assert_eq!(
        out[3].reason,
        "zero bytes, and not one of the placeholder names tools rely on"
    );
}

#[test]
fn the_filo_data_directory_is_never_recommended_for_deletion() {
    let below = vec![file("d/x.txt", 4, MAY_4), file("d/y.txt", 4, MAY_4)];
    let groups = vec![DuplicateGroup {
        hash: "h".to_string(),
        size: 4,
        paths: strings(&["d/.filo/trash/id/y.txt", "d/x.txt", "d/y.txt"]),
    }];
    let out = cleanup_suggestions(
        &below,
        &groups,
        &"d/.filo".to_string(),
        &Vec::new(),
        &strings(&["d/.filo/trash/old", "d/hollow"]),
        &AdviceConfig::default(),
        &now(),
    );
    assert_eq!(out.len(), 1);
    assert_eq!(out[0].kind, CleanupKind::EmptyFolders);
    assert_eq!(out[0].paths, strings(&["d/hollow"]));
    assert_eq!(out[0].title, "1 empty folder(s)");
    assert_eq!(out[0].reason, "nothing inside them at all");
    assert_eq!(out[0].reclaimable, 0);
    assert_eq!(out[0].safety, Safety::Safe);
}

#[test]
fn walked_entries_inside_the_data_folder_are_dropped() {
    let filo = Filo::with_data_dir("d/.filo".to_string());
    let walked = vec![
        file("d/.filo/trash/id/a.txt", 3, MAY_4),
        file("d/a.txt", 3, MAY_4),
        file("d/.filopher", 3, MAY_4),
    ];
    let kept = filo.outside_data(walked);
    let paths: Vec<&str> = kept.iter().map(|e| e.path.as_str()).collect();
    assert_eq!(paths, vec!["d/a.txt", "d/.filopher"]);
}

#[test]
fn an_extracted_archive_is_flagged_but_an_empty_folder_does_not_count() {
    let below = vec![file("d/bundle.zip", 7, MAY_4), file("d/lonely.zip", 5, MAY_4)];
    let config = AdviceConfig::default();
    assert_eq!(extraction_candidates(&below, &config), strings(&["d/bundle", "d/lonely"]));
    let out = cleanup_suggestions(
        &below,
        &Vec::new(),
        &"d/.filo".to_string(),
        &strings(&["d/bundle"]),
        &Vec::new(),
        &config,
        &now(),
    );
    let archives = find_kind(&out, CleanupKind::ExtractedArchives).unwrap();
    assert_eq!(archives.paths, strings(&["d/bundle.zip"]));
    assert_eq!(archives.title, "1 already-extracted archive(s)");
    assert_eq!(archives.reason, "each has a folder of the same name beside it \u{2014} 7 B in total");
}

#[test]
fn old_installers_and_large_stale_files() {
    let old = MAY_4 - 200 * DAY;
    let below = vec![
        file("d/setup.exe", 10, old),
        file("d/fresh.exe", 10, MAY_4),
        file("d/movie.mkv", 200 * 1024 * 1024, old),
    ];
    let out = cleanup_suggestions(
        &below,
        &Vec::new(),
        &"d/.filo".to_string(),
        &Vec::new(),
        &Vec::new(),
        &AdviceConfig::default(),
        &now(),
    );
    assert_eq!(out.len(), 2);
    assert_eq!(out[0].kind, CleanupKind::LargeAndStale);
    assert_eq!(out[0].title, "1 large file(s) untouched for months");
    assert_eq!(
        out[0].reason,
        "each over 100.0 MB, unmodified for 180+ days \u{2014} 200.0 MB in total"
    );
    assert_eq!(out[1].kind, CleanupKind::Installers);
    assert_eq!(out[1].paths, strings(&["d/setup.exe"]));
    assert_eq!(
        out[1].reason,
        "installer packages untouched for 180+ days, almost certainly already run \u{2014} 10 B"
    );
}

#[test]
fn config_thresholds_change_what_is_flagged() {
    let below = vec![file("d/notes.bak", 6, MAY_4)];
    let mut relaxed = AdviceConfig::default();
    let flagged = cleanup_suggestions(
        &below,
        &Vec::new(),
        &"d/.filo".to_string(),
        &Vec::new(),
        &Vec::new(),
        &relaxed,
        &now(),
    );
    assert_eq!(flagged.iter().map(|c| c.paths.len()).sum::<usize>(), 1);
    relaxed.review_extensions.clear();
    let flagged = cleanup_suggestions(
        &below,
        &Vec::new(),
        &"d/.filo".to_string(),
        &Vec::new(),
        &Vec::new(),
        &relaxed,
        &now(),
    );
    assert!(flagged.is_empty());
}

#[test]
fn a_single_file_is_judged_by_the_first_check_that_fits() {
    let below = vec![file("d/~$draft.docx", 5, MAY_4), file("d/x.part", 5, MAY_4)];
    let config = AdviceConfig::default();
    let t = now();
    assert_eq!(find_for(&below[0], &below, &Vec::new(), &config, &t), Some(Finding::Junk));
    assert_eq!(find_for(&below[1], &below, &Vec::new(), &config, &t), Some(Finding::Junk));
}

#[test]
fn chosen_paths_keep_the_suggestion_order() {
    let s = CleanupSuggestion {
        kind: CleanupKind::Junk,
        title: String::new(),
        reason: String::new(),
        reclaimable: 0,
        safety: Safety::Safe,
        paths: strings(&["a", "b", "c"]),
    };
    assert_eq!(chosen_paths(&s, &strings(&["c", "a", "z"])), strings(&["a", "c"]));
}

#[test]
fn reading_the_log_tail_does_not_parse_the_whole_file() {
    let mut h = History::new("d/history.jsonl".to_string());
    for i in 0..50 {
        h.append(Operation::new(OperationKind::Create { path: format!("d/f{i}.txt"), is_dir: false }));
    }
    assert_eq!(h.len(), 50);
    assert_eq!(h.read_recent(10).len(), 10);
    assert_eq!(h.read_recent(10).last().unwrap().id, h.last().unwrap().id);
    assert_eq!(h.read_recent(500).len(), 50);
    assert_eq!(h.read_all().len(), 50);
    assert_eq!(h.path(), "d/history.jsonl");
}

#[test]
fn a_corrupt_history_line_survives_an_undo() {
    let first = Operation::new(OperationKind::Create { path: "d/a.txt".to_string(), is_dir: false });
    let first_id = first.id.clone();
    let second = Operation::new(OperationKind::Create { path: "d/b.txt".to_string(), is_dir: false });
    let second_id = second.id.clone();
    let lines = vec![
        LogLine::Entry(first),
        LogLine::Entry(second),
        LogLine::Unreadable("{not valid json at all}".to_string()),
    ];
    let mut h = History::loaded("log".to_string(), lines);
    assert_eq!(h.len(), 2);
    let popped = h.pop().unwrap();
    assert_eq!(popped.id, second_id);
    assert_eq!(h.len(), 1);
    assert_eq!(h.last().unwrap().id, first_id);
    assert_eq!(h.lines().len(), 2);
    assert!(matches!(&h.lines()[1], LogLine::Unreadable(t) if t == "{not valid json at all}"));
    h.pop();
    assert!(h.pop().is_none());
    assert_eq!(h.lines().len(), 1);
    h.clear();
    assert_eq!(h.lines().len(), 0);
}

#[test]
fn undo_moves_the_newest_operation_to_redo_and_back() {
    let mut filo = Filo::with_data_dir("d/.filo".to_string());
    assert_eq!(filo.trash_dir(), "d/.filo/trash");
    assert_eq!(filo.history().path(), "d/.filo/history.jsonl");
    assert_eq!(filo.redo_stack().path(), "d/.filo/redo.jsonl");
    assert!(!filo.can_undo());
    assert!(matches!(filo.plan_undo(false), UndoPlan::Nothing));
    assert!(matches!(filo.commit_undo(), Err(FiloError::NothingToUndo)));
    assert!(matches!(filo.plan_redo(), Err(FiloError::NothingToRedo)));

    let op = filo.record(Operation::new(OperationKind::Create { path: "d/a.txt".to_string(), is_dir: false }));
    assert!(filo.can_undo());
    match filo.plan_undo(false) {
        UndoPlan::Reverse(steps) => {
            assert_eq!(steps.len(), 1);
            assert!(matches!(&steps[0], FsStep::RemoveIfPresent(p) if p == "d/a.txt"));
        }
        other => panic!("unexpected plan {other:?}"),
    }
    let undone = filo.commit_undo().unwrap();
    assert_eq!(undone.id, op.id);
    assert!(!filo.can_undo());
    assert!(filo.can_redo());
    match filo.plan_redo() {
        Ok(steps) => assert!(matches!(&steps[0], FsStep::MakeFile(p) if p == "d/a.txt")),
        Err(e) => panic!("{e:?}"),
    }
    let redone = filo.commit_redo().unwrap();
    assert_eq!(redone.id, op.id);
    assert!(filo.can_undo());
    assert!(!filo.can_redo());

    filo.commit_undo().unwrap();
    assert!(filo.can_redo());
    filo.record(Operation::new(OperationKind::Create { path: "d/b.txt".to_string(), is_dir: true }));
    assert!(!filo.can_redo(), "a new action clears redo");
}

#[test]
fn a_delete_whose_trash_is_gone_is_blocked() {
    let mut filo = Filo::with_data_dir("d/.filo".to_string());
    filo.record(Operation::new(OperationKind::Create { path: "d/b.txt".to_string(), is_dir: false }));
    let op = filo.record(Operation::new(OperationKind::Delete {
        from: "d/a.txt".to_string(),
        trashed_to: "d/.filo/trash/x/a.txt".to_string(),
    }));
    assert_eq!(filo::undo::trash_paths(&op), strings(&["d/.filo/trash/x/a.txt"]));
    match filo.plan_undo(true) {
        UndoPlan::Blocked(e) => {
            assert_eq!(e.message(), "cannot undo: d/a.txt is no longer in the trash");
            assert_eq!(after_failed_undo(&e), AfterFailure::Skip);
        }
        other => panic!("unexpected plan {other:?}"),
    }
    filo.drop_newest();
    match filo.plan_undo(true) {
        UndoPlan::Reverse(steps) => {
            assert!(matches!(&steps[0], FsStep::RemoveIfPresent(p) if p == "d/b.txt"))
        }
        other => panic!("unexpected plan {other:?}"),
    }
    filo.record(Operation::new(OperationKind::DeleteMany {
        batch: vec![
            ("a".to_string(), "t/1/a".to_string()),
            ("b".to_string(), "t/2/b".to_string()),
            ("c".to_string(), "t/3/c".to_string()),
        ],
    }));
    match filo.plan_undo(true) {
        UndoPlan::Blocked(FiloError::NotReversible(why)) => {
            assert_eq!(why, "3 item(s) is no longer in the trash")
        }
        other => panic!("unexpected plan {other:?}"),
    }
    assert_eq!(after_failed_undo(&FiloError::NothingToUndo), AfterFailure::Stop);
    assert_eq!(after_failed_undo(&FiloError::Io("x".into())), AfterFailure::GiveUp);
    assert_eq!(after_failed_redo(&FiloError::NothingToRedo), AfterFailure::Stop);
    assert_eq!(after_failed_redo(&FiloError::NothingToUndo), AfterFailure::GiveUp);
}

#[test]
fn undoing_an_organize_moves_back_newest_first_then_prunes() {
    let op = Operation::new(OperationKind::Organize {
        batch: vec![
            ("d/a.txt".to_string(), "d/txt/a.txt".to_string()),
            ("d/b.txt".to_string(), "d/2026/05/b.txt".to_string()),
        ],
    });
    let steps = reverse_steps(&op);
    assert_eq!(steps.len(), 4);
    assert!(matches!(&steps[0], FsStep::MoveIfPresent { from, to } if from == "d/2026/05/b.txt" && to == "d/b.txt"));
    assert!(matches!(&steps[1], FsStep::MoveIfPresent { from, to } if from == "d/txt/a.txt" && to == "d/a.txt"));
    assert!(matches!(&steps[2], FsStep::Prune(ds) if *ds == strings(&["d/txt"])));
    assert!(matches!(&steps[3], FsStep::Prune(ds) if *ds == strings(&["d/2026/05", "d/2026"])));
    let forth = replay_steps(&op);
    assert!(matches!(&forth[0], FsStep::Move { from, to } if from == "d/a.txt" && to == "d/txt/a.txt"));
    assert_eq!(filo::undo::prune_dirs(&"d".to_string(), &"d".to_string()).len(), 0);
    assert_eq!(filo::undo::prune_dirs(&"e/x".to_string(), &"d".to_string()).len(), 0);
}

#[test]
fn each_operation_has_a_one_line_summary() {
    let s = |kind| Operation::new(kind).summary();
    assert_eq!(s(OperationKind::Create { path: "d/a.txt".into(), is_dir: false }), "create  d/a.txt");
    assert_eq!(
        s(OperationKind::Delete { from: "d/a.txt".into(), trashed_to: "t/a.txt".into() }),
        "delete  d/a.txt"
    );
    assert_eq!(s(OperationKind::Move { from: "a".into(), to: "b".into() }), "move    a -> b");
    assert_eq!(s(OperationKind::Copy { from: "a".into(), to: "b".into() }), "copy    b");
    assert_eq!(
        s(OperationKind::Rename { from: "d/a.txt".into(), to: "d/b.txt".into() }),
        "rename  d/a.txt -> b.txt"
    );
    assert_eq!(
        s(OperationKind::Organize { batch: vec![("a".into(), "b".into()), ("c".into(), "d".into())] }),
        "organize 2 file(s)"
    );
    assert_eq!(
        s(OperationKind::DeleteMany { batch: vec![("a".into(), "b".into())] }),
        "delete  1 item(s)"
    );
    let op = Operation::new(OperationKind::Create { path: "x".into(), is_dir: true });
    assert_eq!(op.id.len(), 36);
}

#[test]
fn strategies_name_their_folders() {
    let t = now();
    let pdf = file("d/Report.PDF", 2048, MAY_4);
    assert_eq!(pdf.extension.as_deref(), Some("pdf"));
    assert_eq!(OrganizeStrategy::Extension.destination_at(&pdf, &t), Some("pdf".to_string()));
    assert_eq!(OrganizeStrategy::Date.destination_at(&pdf, &t), Some("2026/05".to_string()));
    assert_eq!(OrganizeStrategy::Size.destination_at(&pdf, &t), Some("small".to_string()));
    assert_eq!(
        OrganizeStrategy::ExtensionThenDate.destination_at(&pdf, &t),
        Some("pdf/2026-05".to_string())
    );
    let bare = file("d/Makefile", 2 * 1024 * 1024, MAY_4);
    assert_eq!(OrganizeStrategy::Extension.destination_at(&bare, &t), Some("no_extension".to_string()));
    assert_eq!(OrganizeStrategy::Size.destination_at(&bare, &t), Some("medium".to_string()));
    let big = file("d/x.iso", 100 * 1024 * 1024, MAY_4);
    assert_eq!(OrganizeStrategy::Size.destination_at(&big, &t), Some("large".to_string()));
    let by_date = |secs: i64| OrganizeStrategy::Date.destination_at(&file("d/a", 1, secs), &t);
    assert_eq!(by_date(0), Some("1970/01".to_string()));
    assert_eq!(by_date(MAY_4), Some("2026/05".to_string()));
    assert_eq!(by_date(-1), Some("1969/12".to_string()));
}

#[test]
fn organize_does_not_overwrite_an_existing_destination_file() {
    let mut filo = Filo::with_data_dir("d/.filo".to_string());
    let listing = vec![folder("d/sub"), file("d/a.txt", 1, MAY_4), file("d/b.md", 1, MAY_4)];
    let t = now();
    let all = organize_targets(&"d".to_string(), &listing, &OrganizeStrategy::Extension, &t);
    assert_eq!(
        all,
        vec![
            ("d/a.txt".to_string(), "d/txt/a.txt".to_string()),
            ("d/b.md".to_string(), "d/md/b.md".to_string())
        ]
    );
    let plan = filo.plan_organize(
        &"d".to_string(),
        &listing,
        &OrganizeStrategy::Extension,
        &t,
        &strings(&["d/txt/a.txt"]),
    );
    assert_eq!(plan, vec![("d/b.md".to_string(), "d/md/b.md".to_string())]);

    let failed = filo.finish_organize(plan, Some(FiloError::NotADirectory("d/txt".into())));
    assert!(matches!(failed, Err(FiloError::NotADirectory(_))));
    assert!(filo.can_undo(), "the moves before the failure are recorded");
    let nothing = filo.finish_organize(Vec::new(), Some(FiloError::Io("x".into())));
    assert!(nothing.is_err());
    assert_eq!(filo.history().len(), 1);
    let ok = filo.finish_organize(Vec::new(), None).unwrap();
    assert_eq!(ok.summary(), "organize 0 file(s)");
    assert_eq!(filo.history().len(), 2);
}

#[test]
fn rules_match_and_fill_in_placeholders() {
    let t = now();
    let entry = file("d/invoice.pdf", 5000, MAY_4);
    let m = |exts: &[&str], older: Option<i64>, larger: Option<u64>, re: Option<&str>| Matcher {
        extensions: strings(exts),
        older_than_days: older,
        larger_than_bytes: larger,
        name_regex: re.map(|s| s.to_string()),
    };
    assert!(m(&["PDF"], None, None, None).matches_at(&entry, &t));
    assert!(!m(&["png"], None, None, None).matches_at(&entry, &t));
    assert!(m(&[], Some(10), None, None).matches_at(&entry, &t));
    assert!(!m(&[], Some(11), None, None).matches_at(&entry, &t));
    assert!(m(&[], None, Some(5000), None).matches_at(&entry, &t));
    assert!(!m(&[], None, Some(5001), None).matches_at(&entry, &t));
    assert!(m(&[], None, None, Some("^inv")).matches_at(&entry, &t));
    assert!(!m(&[], None, None, Some("^rep")).matches_at(&entry, &t));
    assert!(!m(&[], None, None, Some("(")).matches_at(&entry, &t));
    assert!(m(&[], None, None, None).matches(&entry));

    let tpl = "docs/{year}/{month}/{ext}".to_string();
    assert_eq!(expand_placeholders(&tpl, &entry), "docs/2026/05/pdf");
    let bare = file("d/README", 1, MAY_4);
    assert_eq!(expand_placeholders(&tpl, &bare), "docs/2026/05/none");

    let set = RuleSet {
        rules: vec![
            Rule { matcher: m(&["png"], None, None, None), into: "images".into() },
            Rule { matcher: m(&["pdf"], None, None, None), into: "papers/{year}".into() },
        ],
    };
    assert_eq!(set.destination_at(&entry, &t), Some("papers/2026".to_string()));
    assert_eq!(set.destination_at(&bare, &t), None);
    assert_eq!(
        OrganizeStrategy::Rules(set).destination_at(&entry, &t),
        Some("papers/2026".to_string())
    );
}

fn plan_pairs(plans: &[RenamePlan]) -> Vec<(String, String)> {
    plans.iter().map(|p| (p.from.clone(), p.to.clone())).collect()
}

#[test]
fn pattern_renames_number_files_in_name_order_and_keep_extensions() {
    let listing = vec![folder("d/sub"), file("d/b.txt", 1, MAY_4), file("d/a.txt", 1, MAY_4)];
    let plans = rename_targets(&"d".to_string(), &listing, &RenameSpec::Pattern("file_{n}".into())).unwrap();
    assert_eq!(
        plan_pairs(&plans),
        vec![
            ("d/a.txt".to_string(), "d/file_1.txt".to_string()),
            ("d/b.txt".to_string(), "d/file_2.txt".to_string())
        ]
    );
    let report = vec![file("d/report.pdf", 1, MAY_4)];
    let plans =
        rename_targets(&"d".to_string(), &report, &RenameSpec::Pattern("pdf_scan_{n}".into())).unwrap();
    assert_eq!(plans[0].to, "d/pdf_scan_1.pdf");
    let plans = rename_targets(&"d".to_string(), &report, &RenameSpec::Pattern("{date}_{name}".into()))
        .unwrap();
    assert_eq!(plans[0].to, "d/20260504_report.pdf");
    let plans =
        rename_targets(&"d".to_string(), &report, &RenameSpec::Pattern("{name}.{ext}".into())).unwrap();
    assert!(plans.is_empty(), "a name that does not change is no rename");
}

#[test]
fn chained_bulk_rename_does_not_clobber() {
    let listing = vec![file("d/b.txt", 1, MAY_4), file("d/bb.txt", 1, MAY_4)];
    let spec = RenameSpec::Regex { find: "^b".into(), replace: "bb".into() };
    let plans = rename_targets(&"d".to_string(), &listing, &spec).unwrap();
    assert_eq!(
        plan_pairs(&plans),
        vec![
            ("d/b.txt".to_string(), "d/bb.txt".to_string()),
            ("d/bb.txt".to_string(), "d/bbb.txt".to_string())
        ]
    );
    assert!(check_collisions(&plans, &strings(&["d/bb.txt"])).is_ok());
    assert_eq!(rename_schedule(&plans).unwrap(), vec![1, 0]);
    let filo = Filo::with_data_dir("d/.filo".to_string());
    assert_eq!(filo.plan_bulk_rename(&"d".to_string(), &listing, &spec, &strings(&["d/bb.txt"])).unwrap().len(), 2);

    let cycle = vec![
        RenamePlan { from: "a".into(), to: "b".into() },
        RenamePlan { from: "b".into(), to: "a".into() },
    ];
    assert!(matches!(rename_schedule(&cycle), Err(FiloError::NameCollision(_))));
}

#[test]
fn bulk_rename_pattern_is_collision_checked() {
    let listing = vec![file("d/a.txt", 1, MAY_4), file("d/b.txt", 1, MAY_4)];
    let plans = rename_targets(&"d".to_string(), &listing, &RenameSpec::Pattern("same".into())).unwrap();
    match check_collisions(&plans, &Vec::new()) {
        Err(FiloError::NameCollision(p)) => assert_eq!(p, "d/same.txt"),
        other => panic!("unexpected {other:?}"),
    }
    let one = vec![file("d/a.txt", 1, MAY_4)];
    let plans = rename_targets(&"d".to_string(), &one, &RenameSpec::Pattern("c".into())).unwrap();
    assert!(matches!(check_collisions(&plans, &strings(&["d/c.txt"])), Err(FiloError::NameCollision(_))));
    let bad = RenameSpec::Regex { find: "(".into(), replace: "x".into() };
    assert!(matches!(rename_targets(&"d".to_string(), &one, &bad), Err(FiloError::Regex(_))));
}

#[test]
fn scans_name_entries_and_order_listings() {
    let e = file("d/Photo.JPG", 1, MAY_4);
    assert_eq!(e.name, "Photo.JPG");
    assert_eq!(e.extension.as_deref(), Some("jpg"));
    let dot = file("d/.bashrc", 1, MAY_4);
    assert_eq!(dot.extension, None);
    let listing = vec![file("d/b", 1, MAY_4), folder("d/z"), file("d/a", 1, MAY_4), folder("d/c")];
    let sorted = sort_listing(&listing);
    let names: Vec<&str> = sorted.iter().map(|e| e.name.as_str()).collect();
    assert_eq!(names, vec!["c", "z", "a", "b"]);
    assert!(skips_dir(&"Node_Modules".to_string(), &noise_dirs()));
    assert!(!skips_dir(&"src".to_string(), &noise_dirs()));
    assert_eq!(project_marker(&strings(&["README.md", "Cargo.toml"])), Some("Cargo.toml"));
    assert_eq!(project_marker(&strings(&["package.json", ".git"])), Some(".git"));
    assert_eq!(project_marker(&Vec::new()), None);
}

#[test]
fn groupings_tally_their_folders() {
    let mut entries = Vec::new();
    for i in 0..4 {
        entries.push(file(&format!("d/doc_{i}.pdf"), 2048, MAY_4));
        entries.push(file(&format!("d/pic_{i}.png"), 2048, MAY_4));
    }
    entries.push(file("d/lone.txt", 1, MAY_4));
    let t = now();
    let tallies = tally_folders(&entries, Grouping::Extension, &t);
    assert_eq!(tallies.len(), 3);
    assert_eq!(tallies[0].folder, "pdf");
    assert_eq!(tallies[0].files, 4);
    assert_eq!(tallies[0].examples, strings(&["doc_0.pdf", "doc_1.pdf", "doc_2.pdf"]));
    assert_eq!(tallies[2].folder, "txt");
    assert_eq!(files_with_company(&tallies), 8);
    let preview = preview_of(&tallies);
    let folders: Vec<&str> = preview.iter().map(|p| p.folder.as_str()).collect();
    assert_eq!(folders, vec!["pdf", "png", "txt"]);
    let by_date = tally_folders(&entries, Grouping::Date, &t);
    assert_eq!(by_date.len(), 1);
    assert_eq!(by_date[0].folder, "2026/05");
    assert_eq!(by_date[0].files, 9);
}

#[test]
fn files_belong_to_their_top_subfolder() {
    let d = "d".to_string();
    assert_eq!(subfolder_for(&d, &"d/mixed/x/doc.pdf".to_string()), Some("d/mixed".to_string()));
    assert_eq!(subfolder_for(&d, &"d/a.txt".to_string()), None);
    assert_eq!(subfolder_for(&d, &"e/a/b.txt".to_string()), None);
    let below = vec![
        file("d/mixed/a.pdf", 1, MAY_4),
        file("d/other/x.txt", 1, MAY_4),
        file("d/mixed/b.png", 1, MAY_4),
        file("d/top.txt", 1, MAY_4),
        file("d/mixed/deep/c.pdf", 1, MAY_4),
    ];
    let groups = subfolder_groups(&d, &below, 2);
    assert_eq!(groups, vec![("d/mixed".to_string(), vec![0, 2, 4])]);
    let all = subfolder_groups(&d, &below, 1);
    assert_eq!(all.len(), 2);
}

#[test]
fn duplicates_are_found_by_size_and_hash() {
    let entries = vec![
        file("d/a.txt", 9, MAY_4),
        file("d/b.txt", 9, MAY_4),
        file("d/c.txt", 9, MAY_4),
        file("d/e.txt", 0, MAY_4),
        file("d/f.txt", 0, MAY_4),
        file("d/g.txt", 3, MAY_4),
    ];
    let need = head_hashes_needed(&entries);
    assert_eq!(need, vec![true, true, true, false, false, false]);
    let contents: [&[u8]; 6] = [b"identical", b"identical", b"different", b"", b"", b"abc"];
    let heads: Vec<Option<String>> = need
        .iter()
        .zip(contents.iter())
        .map(|(n, c)| if *n { Some(content_hash(c)) } else { None })
        .collect();
    let fulls_needed = full_hashes_needed(&entries, &heads);
    assert!(fulls_needed.iter().all(|n| !n));
    let fulls = vec![None; entries.len()];
    let groups = find_duplicates_in(&entries, &heads, &fulls);
    assert_eq!(groups.len(), 1);
    assert_eq!(groups[0].paths, strings(&["d/a.txt", "d/b.txt"]));
    assert_eq!(groups[0].size, 9);
    assert_eq!(groups[0].hash, content_hash(b"identical"));
    assert_eq!(find_duplicates(&entries, &heads, &fulls).len(), 1);
    let filo = Filo::with_data_dir("d/.filo".to_string());
    assert_eq!(filo.find_duplicates(&entries, &heads, &fulls).len(), 1);
    assert_eq!(filo.dedupe_victims(&groups), strings(&["d/b.txt"]));
}

#[test]
fn hashes_group_paths() {
    let grouped = group_by_hash(
        &strings(&["a", "b", "c", "d"]),
        &vec![Some("h1".to_string()), None, Some("h1".to_string()), Some("h2".to_string())],
    );
    assert_eq!(
        grouped,
        vec![("h1".to_string(), strings(&["a", "c"])), ("h2".to_string(), strings(&["d"]))]
    );
}

#[test]
fn sha256_is_written_in_lower_case_hex() {
    assert_eq!(
        content_hash(b"abc"),
        "ba7816bf8f01cfea414140de5dae2223b00361a396177a9cb410ff61f20015ad"
    );
    assert_eq!(
        content_hash(b""),
        "e3b0c44298fc1c149afbf4c8996fb92427ae41e4649b934ca495991b7852b855"
    );
}

#[test]
fn errors_read_as_messages() {
    assert_eq!(FiloError::NotFound("x".into()).message(), "path does not exist: x");
    assert_eq!(FiloError::NothingToUndo.message(), "nothing to undo");
    assert_eq!(FiloError::NothingToRedo.message(), "nothing to redo");
    assert_eq!(
        FiloError::WouldOverwrite("y".into()).message(),
        "refusing to overwrite existing path: y"
    );
    assert_eq!(
        FiloError::PathIo("could not create the folder d/txt".into(), "Not a directory".into()).message(),
        "could not create the folder d/txt: Not a directory"
    );
}

#[test]
fn single_operations_know_where_things_go() {
    assert!(require_exists(&"x".to_string(), true).is_ok());
    assert!(matches!(require_exists(&"x".to_string(), false), Err(FiloError::NotFound(p)) if p == "x"));
    assert!(matches!(
        move_path_no_clobber(&"a".to_string(), &"b".to_string(), true),
        Err(FiloError::WouldOverwrite(p)) if p == "b"
    ));
    assert!(matches!(
        move_path_no_clobber(&"a".to_string(), &"b".to_string(), false),
        Ok(FsStep::Move { from, to }) if from == "a" && to == "b"
    ));
    assert_eq!(trash_spot_for(&"t".to_string(), &"id".to_string(), &"d/a.txt".to_string()), "t/id/a.txt");
    assert_eq!(trash_spot_for(&"t".to_string(), &"id".to_string(), &"..".to_string()), "t/id/unnamed");
    assert_eq!(rename_target(&"d/a.txt".to_string(), &"b.txt".to_string()), "d/b.txt");
    assert_eq!(rename_target(&"a.txt".to_string(), &"b.txt".to_string()), "b.txt");
    assert_eq!(add_target(&"d/a.txt".to_string(), &"e".to_string()).unwrap(), "e/a.txt");
    assert!(matches!(add_target(&"..".to_string(), &"e".to_string()), Err(FiloError::NotFound(_))));
    let filo = Filo::with_data_dir("d/.filo".to_string());
    let t = filo.trash_target(&"d/a.txt".to_string());
    assert!(t.starts_with("d/.filo/trash/") && t.ends_with("/a.txt"));
    assert_eq!(t.len(), "d/.filo/trash/".len() + 36 + "/a.txt".len());
    let batch = filo.trash_batch(&strings(&["d/a", "d/b"]));
    assert_eq!(batch.len(), 2);
    assert_eq!(batch[1].0, "d/b");
}

#[test]
fn days_are_whole_and_truncated() {
    assert_eq!(age_in_days(&at(10 * DAY + 5), &at(0)), 10);
    assert_eq!(age_in_days(&at(0), &at(DAY + 1)), -1);
    assert_eq!(age_in_days(&at(DAY - 1), &at(0)), 0);
}

#[test]
fn settings_come_from_the_first_readable_file() {
    assert_eq!(config_files(&"d".to_string()), strings(&["d/filo.toml", "d/.filo.toml"]));
    let mut custom = AdviceConfig::default();
    custom.stale_days = 7;
    let found = AdviceConfig::discover(vec![None, Some(custom)]);
    assert_eq!(found.stale_days, 7);
    let fallback = AdviceConfig::discover(vec![None, None]);
    assert_eq!(fallback.stale_days, 180);
    assert_eq!(fallback.large_file_bytes, 100 * 1024 * 1024);
    assert_eq!(fallback.skip_dirs().len(), 9);
    assert_eq!(fallback.skip_dirs()[0], ".git");
}

#[test]
fn groupings_have_names_and_ranks() {
    let all = all_groupings();
    assert_eq!(all.len(), 4);
    assert_eq!(Grouping::ExtensionThenDate.label(), "by file type, then month");
    assert_eq!(Grouping::ExtensionThenDate.flag(), "ext-date");
    assert_eq!(Grouping::Date.label(), "by date");
    assert_eq!(rank_of(Grouping::Size), 2);
    assert_eq!(Safety::Review.label(), "review");
    assert!(matches!(Grouping::Size.strategy(), OrganizeStrategy::Size));
}

#[test]
fn suggestion_totals_add_up() {
    let make = |safety: Safety, bytes: u64, n: usize| CleanupSuggestion {
        kind: CleanupKind::Junk,
        title: String::new(),
        reason: String::new(),
        reclaimable: bytes,
        safety,
        paths: (0..n).map(|i| format!("p{i}")).collect(),
    };
    let all = vec![make(Safety::Review, 10, 2), make(Safety::Safe, 5, 1), make(Safety::Safe, 0, 3)];
    assert_eq!(filo::cleanup::total_reclaimable(&all), 15);
    assert_eq!(filo::cleanup::files_flagged(&all), 6);
    assert_eq!(filo::cleanup::safe_cleanups(&all), vec![1, 2]);
}

#[test]
fn undo_then_redo_keeps_the_log_in_order() {
    let mut filo = Filo::with_data_dir("d/.filo".to_string());
    let a = filo.record(Operation::new(OperationKind::Create { path: "d/a".into(), is_dir: false }));
    let b = filo.record(Operation::new(OperationKind::Create { path: "d/b".into(), is_dir: false }));
    assert_eq!(filo.commit_undo().unwrap().id, b.id);
    assert_eq!(filo.commit_undo().unwrap().id, a.id);
    assert!(matches!(filo.commit_undo(), Err(FiloError::NothingToUndo)));
    assert_eq!(filo.commit_redo().unwrap().id, a.id);
    assert_eq!(filo.commit_redo().unwrap().id, b.id);
    assert!(matches!(filo.commit_redo(), Err(FiloError::NothingToRedo)));
    let ids: Vec<String> = filo.history().read_all().into_iter().map(|o| o.id).collect();
    assert_eq!(ids, vec![a.id, b.id]);
}

#[test]
fn a_log_with_only_unreadable_lines_has_nothing_to_undo() {
    let h = History::loaded("log".to_string(), vec![LogLine::Unreadable("garbage".into())]);
    let mut filo = Filo::with_logs("d".to_string(), h, History::new("redo".to_string()));
    assert!(!filo.can_undo());
    assert!(filo.drop_newest().is_none());
    assert_eq!(filo.history().lines().len(), 1);
}

/// Undoes the newest operation the way the command line does, on the stacks alone.
fn undo_step(filo: &mut Filo) -> Result<Operation, FiloError> {
    loop {
        match filo.plan_undo(false) {
            UndoPlan::Nothing => return Err(FiloError::NothingToUndo),
            UndoPlan::Skip => {
                filo.drop_newest();
            }
            UndoPlan::Blocked(e) => {
                filo.drop_newest();
                return Err(e);
            }
            UndoPlan::Reverse(_) => return filo.commit_undo(),
        }
    }
}

fn undo_many(filo: &mut Filo, count: usize) -> Vec<Operation> {
    let mut done = Vec::new();
    for _ in 0..count {
        match undo_step(filo) {
            Ok(op) => done.push(op),
            Err(e) => match after_failed_undo(&e) {
                AfterFailure::Stop => break,
                AfterFailure::Skip => continue,
                AfterFailure::GiveUp => panic!("{e:?}"),
            },
        }
    }
    done
}

fn redo_many(filo: &mut Filo, count: usize) -> Vec<Operation> {
    let mut done = Vec::new();
    for _ in 0..count {
        if filo.plan_redo().is_err() {
            break;
        }
        done.push(filo.commit_redo().unwrap());
    }
    done
}

#[test]
fn create_and_undo() {
    let mut filo = Filo::with_data_dir("root/.filo".to_string());
    filo.record(Operation::new(OperationKind::Create { path: "root/a.txt".into(), is_dir: false }));
    match filo.plan_undo(false) {
        UndoPlan::Reverse(steps) => {
            assert_eq!(steps.len(), 1);
            assert!(matches!(&steps[0], FsStep::RemoveIfPresent(p) if p == "root/a.txt"));
        }
        other => panic!("unexpected plan {other:?}"),
    }
    filo.commit_undo().unwrap();
    assert!(!filo.can_undo());
}

#[test]
fn redo_replays_an_undone_operation() {
    let mut filo = Filo::with_data_dir("root/.filo".to_string());
    filo.record(Operation::new(OperationKind::Create { path: "root/a.txt".into(), is_dir: false }));
    undo_many(&mut filo, 1);
    match filo.plan_redo() {
        Ok(steps) => assert!(matches!(&steps[0], FsStep::MakeFile(p) if p == "root/a.txt")),
        Err(e) => panic!("{e:?}"),
    }
    assert_eq!(redo_many(&mut filo, 1).len(), 1);
    assert!(filo.can_undo());
}

#[test]
fn redo_recreates_a_directory_not_a_file() {
    let mut filo = Filo::with_data_dir("root/.filo".to_string());
    filo.record(Operation::new(OperationKind::Create { path: "root/sub".into(), is_dir: true }));
    undo_many(&mut filo, 1);
    match filo.plan_redo() {
        Ok(steps) => assert!(matches!(&steps[0], FsStep::MakeDir(p) if p == "root/sub")),
        Err(e) => panic!("{e:?}"),
    }
}

#[test]
fn multi_step_undo_and_redo() {
    let mut filo = Filo::with_data_dir("root/.filo".to_string());
    for name in ["a.txt", "b.txt", "c.txt"] {
        filo.record(Operation::new(OperationKind::Create { path: format!("root/{name}"), is_dir: false }));
    }
    assert_eq!(undo_many(&mut filo, usize::MAX).len(), 3);
    assert!(!filo.can_undo());
    assert_eq!(redo_many(&mut filo, 2).len(), 2);
    assert_eq!(filo.history().len(), 2);
    assert!(filo.can_redo());
}

#[test]
fn new_action_clears_the_redo_stack() {
    let mut filo = Filo::with_data_dir("root/.filo".to_string());
    filo.record(Operation::new(OperationKind::Create { path: "root/a.txt".into(), is_dir: false }));
    undo_many(&mut filo, 1);
    assert!(filo.can_redo());
    filo.record(Operation::new(OperationKind::Create { path: "root/b.txt".into(), is_dir: false }));
    assert!(!filo.can_redo(), "a new action clears redo");
}

#[test]
fn folders_holding_a_single_file_drag_the_score_down() {
    let day = MAY_4;
    let all_unique: Vec<FileEntry> = (0..6).map(|i| file(&format!("file_{i}.ext{i}"), 10, day)).collect();
    let tallies = tally_folders(&all_unique, Grouping::Extension, &now());
    assert_eq!(tallies.len(), 6);
    assert_eq!(files_with_company(&tallies), 0, "no file has company");
}

#[test]
fn mixed_extensions_from_one_day_are_grouped_by_type() {
    let mut entries = Vec::new();
    for i in 0..4 {
        entries.push(file(&format!("doc_{i}.pdf"), 2048, MAY_4));
        entries.push(file(&format!("pic_{i}.png"), 2048, MAY_4));
    }
    let t = now();
    let counts = |v: &Vec<filo::recommend::FolderPreview>| v.iter().map(|p| p.files).collect::<Vec<_>>();
    let by_type = tally_folders(&entries, Grouping::Extension, &t);
    assert_eq!(counts(&by_type), vec![4, 4], "an even 4/4 split");
    assert_eq!(files_with_company(&by_type), 8);
    let by_date = tally_folders(&entries, Grouping::Date, &t);
    assert_eq!(by_date.len(), 1, "one shared day gives a single folder, which is worthless");
}

#[test]
fn one_extension_across_months_is_grouped_by_date() {
    let mut entries = Vec::new();
    for (k, secs) in [1767960000i64, 1775736000, 1783598400].iter().enumerate() {
        for i in 0..3 {
            entries.push(file(&format!("note_{k}_{i}.txt"), 100, *secs));
        }
    }
    let t = now();
    let by_date = tally_folders(&entries, Grouping::Date, &t);
    let folders: Vec<String> = by_date.iter().map(|p| p.folder.clone()).collect();
    assert_eq!(folders, strings(&["2026/01", "2026/04", "2026/07"]));
    assert_eq!(files_with_company(&by_date), 9);
    assert_eq!(tally_folders(&entries, Grouping::Extension, &t).len(), 1);
}

#[test]
fn a_simpler_grouping_wins_a_tie() {
    let day = MAY_4;
    let mut entries = Vec::new();
    for i in 0..3 {
        entries.push(file(&format!("a_{i}.pdf"), 100, day));
        entries.push(file(&format!("b_{i}.png"), 100, day));
    }
    let t = now();
    let by_type = tally_folders(&entries, Grouping::Extension, &t);
    let by_type_month = tally_folders(&entries, Grouping::ExtensionThenDate, &t);
    let counts = |v: &Vec<filo::recommend::FolderPreview>| v.iter().map(|p| p.files).collect::<Vec<_>>();
    assert_eq!(counts(&by_type), counts(&by_type_month), "the two score the same");
    assert!(rank_of(Grouping::Extension) < rank_of(Grouping::ExtensionThenDate));
}

#[test]
fn pattern_rename_keeps_the_extension() {
    let listing = vec![file("dir/report.pdf", 1, MAY_4)];
    let plans =
        rename_targets(&"dir".to_string(), &listing, &RenameSpec::Pattern("pdf_scan_{n}".into())).unwrap();
    assert_eq!(plans.len(), 1);
    assert_eq!(plans[0].to, "dir/pdf_scan_1.pdf", "an extension inside the new name must not eat the real one");
}

#[test]
fn a_project_root_is_recognised() {
    assert!(project_marker(&Vec::new()).is_none());
    assert_eq!(project_marker(&strings(&["Cargo.toml"])), Some("Cargo.toml"));
}

#[test]
fn the_original_is_kept_not_the_copy() {
    let below = vec![file("dir/report.pdf", 4, MAY_4), file("dir/report (1).pdf", 4, MAY_4)];
    let groups = vec![DuplicateGroup {
        hash: "h".to_string(),
        size: 4,
        paths: strings(&["dir/report (1).pdf", "dir/report.pdf"]),
    }];
    let out = cleanup_suggestions(
        &below,
        &groups,
        &"dir/.filo".to_string(),
        &Vec::new(),
        &Vec::new(),
        &AdviceConfig::default(),
        &now(),
    );
    let duplicates = find_kind(&out, CleanupKind::Duplicates).expect("the identical pair should be reported");
    assert_eq!(duplicates.paths, strings(&["dir/report (1).pdf"]));
}

#[test]
fn delete_many_is_a_single_undo() {
    let mut filo = Filo::with_data_dir("root/.filo".to_string());
    let paths = strings(&["root/a.txt", "root/b.txt", "root/c.txt"]);
    let batch = filo.trash_batch(&paths);
    filo.record(Operation::new(OperationKind::DeleteMany { batch }));
    match filo.plan_undo(false) {
        UndoPlan::Reverse(steps) => {
            assert_eq!(steps.len(), 3, "one undo restores them all");
            assert!(matches!(&steps[0], FsStep::Restore { to, .. } if to == "root/c.txt"));
            assert!(matches!(&steps[2], FsStep::Restore { to, .. } if to == "root/a.txt"));
        }
        other => panic!("unexpected plan {other:?}"),
    }
    filo.commit_undo().unwrap();
    assert!(!filo.can_undo(), "the batch was a single history entry");
    match filo.plan_redo() {
        Ok(steps) => assert_eq!(steps.len(), 3, "one redo re-trashes them all"),
        Err(e) => panic!("{e:?}"),
    }
}

#[test]
fn undo_skips_entries_whose_trash_was_emptied() {
    let mut filo = Filo::with_data_dir("root/.filo".to_string());
    filo.record(Operation::new(OperationKind::Create { path: "root/b.txt".into(), is_dir: false }));
    let trashed = filo.trash_target(&"root/a.txt".to_string());
    filo.record(Operation::new(OperationKind::Delete { from: "root/a.txt".into(), trashed_to: trashed }));
    let e = match filo.plan_undo(true) {
        UndoPlan::Blocked(e) => e,
        other => panic!("the delete can no longer be reversed, got {other:?}"),
    };
    assert!(matches!(&e, FiloError::NotReversible(why) if why.contains("root/a.txt")));
    assert!(filo.drop_newest().is_some());
    assert!(matches!(after_failed_undo(&e), AfterFailure::Skip));
    match filo.plan_undo(false) {
        UndoPlan::Reverse(steps) => {
            assert!(matches!(&steps[0], FsStep::RemoveIfPresent(p) if p == "root/b.txt"));
        }
        other => panic!("the create underneath must still be undoable, got {other:?}"),
    }
    filo.commit_undo().unwrap();
    assert!(!filo.can_undo());
}

#[test]
fn organize_records_what_it_managed_to_move_before_failing() {
    let mut filo = Filo::with_data_dir("root/.filo".to_string());
    let done = vec![("root/a.md".to_string(), "root/md/a.md".to_string())];
    let r = filo.finish_organize(done, Some(FiloError::Io("root/txt is in the way".into())));
    assert!(matches!(r, Err(FiloError::Io(m)) if m.contains("root/txt")));
    match filo.plan_undo(false) {
        UndoPlan::Reverse(steps) => {
            assert!(matches!(&steps[0], FsStep::MoveIfPresent { from, to } if from == "root/md/a.md" && to == "root/a.md"));
        }
        other => panic!("the partial move must be recorded and undoable, got {other:?}"),
    }
    let mut empty = Filo::with_data_dir("root/.filo".to_string());
    assert!(empty.finish_organize(Vec::new(), Some(FiloError::Io("x".into()))).is_err());
    assert!(!empty.can_undo(), "a failure before any move records nothing");
}

#[test]
fn organize_by_date_undo_removes_the_nested_folders() {
    let mut filo = Filo::with_data_dir("root/.filo".to_string());
    let batch = vec![("root/a.txt".to_string(), "root/2026/05/a.txt".to_string())];
    filo.record(Operation::new(OperationKind::Organize { batch }));
    match filo.plan_undo(false) {
        UndoPlan::Reverse(steps) => {
            assert_eq!(steps.len(), 2);
            assert!(matches!(&steps[0], FsStep::MoveIfPresent { from, to } if from == "root/2026/05/a.txt" && to == "root/a.txt"));
            assert!(
                matches!(&steps[1], FsStep::Prune(ds) if *ds == strings(&["root/2026/05", "root/2026"])),
                "undo should leave no empty year folder behind"
            );
        }
        other => panic!("unexpected plan {other:?}"),
    }
}

#[test]
fn delete_goes_to_trash_and_undo_restores() {
    let mut filo = Filo::with_data_dir("root/.filo".to_string());
    let f = "root/data.bin".to_string();
    let target = filo.trash_target(&f);
    assert!(target.starts_with("root/.filo/trash/") && target.ends_with("/data.bin"));
    filo.record(Operation::new(OperationKind::Delete { from: f.clone(), trashed_to: target.clone() }));
    match filo.plan_undo(false) {
        UndoPlan::Reverse(steps) => {
            assert!(matches!(&steps[0], FsStep::Restore { from, to } if *from == target && *to == f));
        }
        other => panic!("undo should restore from trash, got {other:?}"),
    }
}

#[test]
fn add_copy_and_move() {
    let to = add_target(&"root/a.txt".to_string(), &"root/dest".to_string()).unwrap();
    assert_eq!(to, "root/dest/a.txt");
    let mut filo = Filo::with_data_dir("root/.filo".to_string());
    filo.record(Operation::new(OperationKind::Copy { from: "root/a.txt".into(), to: to.clone() }));
    match filo.plan_undo(false) {
        UndoPlan::Reverse(steps) => assert!(matches!(&steps[0], FsStep::RemoveIfPresent(p) if *p == to)),
        other => panic!("unexpected plan {other:?}"),
    }
}

#[test]
fn rename_in_place() {
    let to = rename_target(&"root/old.txt".to_string(), &"new.txt".to_string());
    assert_eq!(to, "root/new.txt");
    let mut filo = Filo::with_data_dir("root/.filo".to_string());
    filo.record(Operation::new(OperationKind::Rename { from: "root/old.txt".into(), to }));
    match filo.plan_undo(false) {
        UndoPlan::Reverse(steps) => assert!(
            matches!(&steps[0], FsStep::Move { from, to } if from == "root/new.txt" && to == "root/old.txt"),
            "undo should restore the old name"
        ),
        other => panic!("unexpected plan {other:?}"),
    }
}

#[test]
fn organize_by_extension_then_undo() {
    let listing = vec![file("root/a.txt", 1, MAY_4), file("root/b.txt", 1, MAY_4), file("root/c.jpg", 1, MAY_4)];
    let mut filo = Filo::with_data_dir("root/.filo".to_string());
    let plan = filo.plan_organize(&"root".to_string(), &listing, &OrganizeStrategy::Extension, &now(), &Vec::new());
    assert_eq!(
        plan,
        vec![
            ("root/a.txt".to_string(), "root/txt/a.txt".to_string()),
            ("root/b.txt".to_string(), "root/txt/b.txt".to_string()),
            ("root/c.jpg".to_string(), "root/jpg/c.jpg".to_string()),
        ]
    );
    filo.finish_organize(plan, None).unwrap();
    match filo.plan_undo(false) {
        UndoPlan::Reverse(steps) => {
            assert!(matches!(&steps[0], FsStep::MoveIfPresent { from, to } if from == "root/jpg/c.jpg" && to == "root/c.jpg"));
            assert!(matches!(&steps[2], FsStep::MoveIfPresent { from, to } if from == "root/txt/a.txt" && to == "root/a.txt"));
            assert!(
                steps.iter().any(|s| matches!(s, FsStep::Prune(ds) if *ds == strings(&["root/txt"]))),
                "empty folders should be cleaned up"
            );
        }
        other => panic!("unexpected plan {other:?}"),
    }
}

#[test]
fn find_duplicates_groups_identical_files() {
    let files: Vec<(&str, &[u8])> =
        vec![("d/one.txt", b"identical"), ("d/two.txt", b"identical"), ("d/diff.txt", b"different")];
    let entries: Vec<FileEntry> = files.iter().map(|(p, c)| file(p, c.len() as u64, MAY_4)).collect();
    let need = head_hashes_needed(&entries);
    assert_eq!(need, vec![true, true, true], "all three share a size");
    let heads: Vec<Option<String>> = files.iter().map(|(_, c)| Some(content_hash(c))).collect();
    let fulls: Vec<Option<String>> = vec![None, None, None];
    assert_eq!(full_hashes_needed(&entries, &heads), vec![false, false, false]);
    let filo = Filo::with_data_dir("d/.filo".to_string());
    let groups = filo.find_duplicates(&entries, &heads, &fulls);
    assert_eq!(groups.len(), 1);
    assert_eq!(groups[0].paths.len(), 2);
}

#[test]
fn a_trash_copy_lies_inside_the_trash_folder() {
    let id = "0f3c2a9e-5b7d-4c1e-8a2b-9d0e1f2a3b4c".to_string();
    assert_eq!(trash_spot_for(&"t".to_string(), &id, &"d/a.txt".to_string()), format!("t/{id}/a.txt"));
    assert_eq!(trash_spot_for(&"t/".to_string(), &id, &"/".to_string()), format!("t/{id}/unnamed"));
    assert_eq!(trash_spot_for(&"t".to_string(), &id, &"d/..".to_string()), format!("t/{id}/unnamed"));
    let filo = Filo::with_data_dir("root/.filo".to_string());
    for p in ["root/x", "x", "/abs/y", "root/dir/"] {
        let t = filo.trash_target(&p.to_string());
        assert!(t.starts_with("root/.filo/trash/"), "{t}");
        assert_eq!(t.len(), "root/.filo/trash/".len() + 36 + 1 + t.rsplit('/').next().unwrap().len());
    }
}

#[test]
fn the_kept_half_of_a_duplicate_pair_is_never_proposed() {
    let below = vec![file("d/a/Thumbs.db", 4, MAY_4), file("d/b/Thumbs.db", 4, MAY_4), file("d/c/Thumbs.db", 5, MAY_4)];
    let groups = vec![DuplicateGroup {
        hash: "h".to_string(),
        size: 4,
        paths: strings(&["d/a/Thumbs.db", "d/b/Thumbs.db"]),
    }];
    let out = cleanup_suggestions(
        &below,
        &groups,
        &"d/.filo".to_string(),
        &Vec::new(),
        &Vec::new(),
        &AdviceConfig::default(),
        &now(),
    );
    let proposed: Vec<&String> = out.iter().flat_map(|s| s.paths.iter()).collect();
    assert!(proposed.contains(&&"d/b/Thumbs.db".to_string()));
    assert!(proposed.contains(&&"d/c/Thumbs.db".to_string()), "a lone junk file is still proposed");
    assert!(!proposed.contains(&&"d/a/Thumbs.db".to_string()), "the kept copy must survive");
}

#[test]
fn permanent_delete_does_not_block_the_undo_stack() {
    let mut filo = Filo::with_data_dir("root/.filo".to_string());
    filo.record(Operation::new(OperationKind::Create { path: "root/later.txt".into(), is_dir: false }));
    filo.record(Operation::new(OperationKind::Create { path: "root/undone.txt".into(), is_dir: false }));
    undo_many(&mut filo, 1);
    assert!(filo.can_redo());
    let erase = filo.record(Operation::new(OperationKind::Erase { from: "root/gone.txt".into() }));
    assert_eq!(erase.summary(), "delete  root/gone.txt (permanently)");
    assert_eq!(filo.history().len(), 2, "the permanent delete is in the log");
    assert!(!filo.can_redo(), "and, like any new action, it clears the redo stack");
    assert!(matches!(filo.plan_undo(true), UndoPlan::Skip));
    let undone = undo_step(&mut filo).expect("the earlier create must still be undoable");
    assert!(matches!(&undone.kind, OperationKind::Create { path, .. } if path == "root/later.txt"));
    assert!(!filo.can_undo());
}

#[test]
fn dates_before_year_zero_and_at_the_edge_of_the_calendar() {
    let t = now();
    let by_date = |secs: i64| OrganizeStrategy::Date.destination_at(&file("d/a", 1, secs), &t);
    assert_eq!(by_date(-720199 * 86400), Some("-2/03".to_string()));
    assert_eq!(by_date(-720199 * 86400 - 1), Some("-2/02".to_string()));
    assert_eq!(by_date(-8334601228800), Some("-262143/01".to_string()));
    assert_eq!(by_date(8210266876799), Some("262142/12".to_string()));
}
