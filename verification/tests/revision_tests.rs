use novel_writer::diff::{DiffKind, DiffSegment};
use novel_writer::errors::EngineError;
use novel_writer::models::{ChapterVersion, VersionType};
use novel_writer::revision::VersionManager;

/// Save new content for chapter 1, assigning the next id as a store would,
/// and prepend the stored record to the newest-first history.
fn save(manager: &VersionManager, history: &mut Vec<ChapterVersion>, content: &str, auto: bool) -> i64 {
    let draft = manager
        .create_version(history, 1, content, None, auto)
        .expect("chain must be intact");
    let id = history.len() as i64 + 1;
    let stored = ChapterVersion { id, ..draft };
    history.insert(0, stored);
    id
}

#[test]
fn round_trip_restores_latest_content() {
    // Saving s1 then s2 and restoring the newest version yields s2 exactly.
    let manager = VersionManager::new();
    let mut history = Vec::new();
    let v1 = save(&manager, &mut history, "first draft text", false);
    assert_eq!(manager.restore_to_version(&history, v1).unwrap(), "first draft text");
    let v2 = save(&manager, &mut history, "second draft, rewritten", false);
    assert_eq!(manager.restore_to_version(&history, v2).unwrap(), "second draft, rewritten");
    assert_eq!(manager.restore_to_version(&history, v1).unwrap(), "first draft text");
}

#[test]
fn snapshot_cadence_every_tenth_save() {
    // Of 25 sequential saves, those at positions 1, 11 and 21 are
    // snapshots; all others are diffs.
    let manager = VersionManager::new();
    let mut history = Vec::new();
    for i in 0..25 {
        save(&manager, &mut history, &format!("content revision {}", i), false);
    }
    assert_eq!(history.len(), 25);
    // history is newest first: position 1 is the last element.
    for (pos, version) in history.iter().rev().enumerate() {
        let expected = if pos % 10 == 0 { VersionType::Snapshot } else { VersionType::Diff };
        assert_eq!(version.version_type, expected, "position {}", pos + 1);
    }
    // Every version still restores to what was saved.
    for (pos, version) in history.iter().rev().enumerate() {
        assert_eq!(
            manager.restore_to_version(&history, version.id).unwrap(),
            format!("content revision {}", pos)
        );
    }
}

#[test]
fn hello_world_scenario() {
    // Save "Hello" (v1, snapshot), then "Hello world" (v2, diff): v2
    // restores exactly, and comparing reports six insertions.
    let manager = VersionManager::new();
    let mut history = Vec::new();
    let v1 = save(&manager, &mut history, "Hello", false);
    let v2 = save(&manager, &mut history, "Hello world", false);
    assert_eq!(history[1].version_type, VersionType::Snapshot);
    assert_eq!(history[0].version_type, VersionType::Diff);
    assert_eq!(manager.restore_to_version(&history, v2).unwrap(), "Hello world");
    let comparison = manager.compare_versions(&history, v1, v2).unwrap();
    assert_eq!(comparison.statistics.insertions, 6);
    assert_eq!(comparison.statistics.deletions, 0);
    assert_eq!(comparison.version1.id, v1);
    assert_eq!(comparison.version2.id, v2);
}

#[test]
fn comparing_a_version_to_itself_is_neutral() {
    let manager = VersionManager::new();
    let mut history = Vec::new();
    let v1 = save(&manager, &mut history, "unchanging words", false);
    let comparison = manager.compare_versions(&history, v1, v1).unwrap();
    assert_eq!(comparison.statistics.insertions, 0);
    assert_eq!(comparison.statistics.deletions, 0);
    assert_eq!(comparison.statistics.unchanged, "unchanging words".chars().count());
    assert_eq!(comparison.diff, "unchanging words");
}

#[test]
fn restore_unknown_version_fails() {
    let manager = VersionManager::new();
    let history = Vec::new();
    assert_eq!(manager.restore_to_version(&history, 7), Err(EngineError::VersionNotFound));
    assert!(matches!(manager.compare_versions(&history, 1, 2), Err(EngineError::VersionNotFound)));
}

#[test]
fn broken_chain_is_surfaced() {
    // A diff version whose parent link dangles must fail, not fall back to
    // partial content.
    let manager = VersionManager::new();
    let orphan = ChapterVersion {
        id: 5,
        chapter_id: 1,
        parent_version_id: Some(99),
        version_type: VersionType::Diff,
        content: String::new(),
        diff_data: Some(vec![DiffSegment { kind: DiffKind::Insert, text: "x".to_string() }]),
        word_count: 1,
        created_at: 0,
        commit_message: String::new(),
        is_auto_save: false,
    };
    let history = vec![orphan];
    assert_eq!(manager.restore_to_version(&history, 5), Err(EngineError::BrokenChain));
    let no_parent = ChapterVersion {
        id: 6,
        parent_version_id: None,
        ..history.into_iter().next().unwrap()
    };
    let history = vec![no_parent];
    assert_eq!(manager.restore_to_version(&history, 6), Err(EngineError::BrokenChain));
}

#[test]
fn apply_diff_replays_and_checks_the_base() {
    let manager = VersionManager::new();
    let script = vec![
        DiffSegment { kind: DiffKind::Equal, text: "Hello".to_string() },
        DiffSegment { kind: DiffKind::Delete, text: " there".to_string() },
        DiffSegment { kind: DiffKind::Insert, text: " world".to_string() },
    ];
    assert_eq!(manager.apply_diff("Hello there", &script), Ok("Hello world".to_string()));
    assert_eq!(manager.apply_diff("Hello world", &script), Err(EngineError::BrokenChain));
}

#[test]
fn word_count_ignores_whitespace() {
    let manager = VersionManager::new();
    let mut history = Vec::new();
    save(&manager, &mut history, "two words", false);
    assert_eq!(history[0].word_count, 8);
}

#[test]
fn timeline_is_newest_first() {
    let manager = VersionManager::new();
    let mut history = Vec::new();
    for i in 0..5 {
        save(&manager, &mut history, &format!("text {}", i), i % 2 == 0);
    }
    // Give the records distinct, shuffled stamps to exercise the sort.
    let stamps = [40, 10, 50, 20, 30];
    for (v, stamp) in history.iter_mut().zip(stamps.iter()) {
        v.created_at = *stamp;
    }
    let timeline = manager.get_version_timeline(&history);
    assert_eq!(timeline.len(), 5);
    for pair in timeline.windows(2) {
        assert!(pair[0].created_at >= pair[1].created_at);
    }
    assert_eq!(timeline[0].created_at, 50);
    assert_eq!(timeline[4].created_at, 10);
}

#[test]
fn cleanup_prunes_old_auto_saves_up_to_a_snapshot() {
    // Twenty-five auto-saves, keep the five most recent: the oldest twenty
    // are candidates, and the cut lands where the oldest retained version
    // is a snapshot, so versions one through twenty go.
    let manager = VersionManager::new();
    let mut history = Vec::new();
    for i in 0..25 {
        save(&manager, &mut history, &format!("auto {}", i), true);
    }
    let doomed = manager.cleanup_auto_save_versions(&history, 5);
    let expected: Vec<i64> = (1..=20).rev().collect();
    assert_eq!(doomed, expected);
    // Nothing to prune when everything fits the budget.
    assert!(manager.cleanup_auto_save_versions(&history, 25).is_empty());
}

#[test]
fn cleanup_never_orphans_a_manual_save() {
    // A manual save in the middle blocks pruning past it: only the
    // contiguous oldest run of candidates ending before a snapshot goes.
    let manager = VersionManager::new();
    let mut history = Vec::new();
    for i in 0..10 {
        save(&manager, &mut history, &format!("auto {}", i), true);
    }
    save(&manager, &mut history, "manual keystone", false);
    for i in 0..5 {
        save(&manager, &mut history, &format!("later {}", i), true);
    }
    // Versions: 1..=10 auto (1 snapshot), 11 manual (snapshot), 12..=16 auto.
    // Keep zero: candidates are all autos, but the run from the old end
    // stops at the manual save, and the cut must leave a snapshot as the
    // oldest retained version; version 11 is the snapshot.
    let doomed = manager.cleanup_auto_save_versions(&history, 0);
    let expected: Vec<i64> = (1..=10).rev().collect();
    assert_eq!(doomed, expected);
}
