use augenblick::error::NoteError;
use augenblick::store::NoteStore;
use augenblick::types::{AppPaths, NoteStorage};

fn paths() -> AppPaths {
    AppPaths {
        app_data_dir: String::from("app"),
        drafts_dir: String::from("app/drafts"),
        trash_dir: String::from("app/trash"),
        db_path: String::from("app/notes.db"),
    }
}

fn store() -> NoteStore {
    NoteStore::new(paths())
}

#[test]
fn create_draft_then_get_is_empty_new_note() {
    let mut s = store();
    let meta = s.create_draft_with_id(String::from("n1"), 1000).unwrap();
    assert_eq!(meta.title, "New note");
    assert_eq!(meta.preview, "");
    assert_eq!(meta.file_path, "app/drafts/n1.md");
    assert_eq!(meta.storage, NoteStorage::Draft);
    let nc = s.get("n1").unwrap();
    assert_eq!(nc.content, "");
    assert_eq!(nc.meta.title, "New note");
}

#[test]
fn create_draft_generates_36_char_ids() {
    let mut s = store();
    let meta = s.create_draft(5).unwrap();
    assert_eq!(meta.id.chars().count(), 36);
}

#[test]
fn duplicate_id_is_refused() {
    let mut s = store();
    s.create_draft_with_id(String::from("n1"), 1).unwrap();
    let r = s.create_draft_with_id(String::from("n1"), 2);
    assert_eq!(r.unwrap_err(), NoteError::StoreUnavailable);
}

#[test]
fn get_unknown_id_is_not_found() {
    let s = store();
    assert_eq!(s.get("nope").unwrap_err(), NoteError::NotFound);
    assert_eq!(s.get_meta("nope").unwrap_err(), NoteError::NotFound);
}

#[test]
fn write_draft_updates_title_preview_and_recency() {
    let mut s = store();
    s.create_draft_with_id(String::from("n1"), 1).unwrap();
    let meta = s.write_draft("n1", "# Title\nBody text", 50).unwrap();
    assert_eq!(meta.title, "Title");
    assert_eq!(meta.preview, "Body text");
    assert_eq!(meta.last_interaction, 50);
    assert_eq!(s.get("n1").unwrap().content, "# Title\nBody text");
}

#[test]
fn write_draft_on_saved_note_is_refused() {
    let mut s = store();
    s.create_draft_with_id(String::from("n1"), 1).unwrap();
    s.save_as("n1", "ext/doc.md", "hello", None, 2).unwrap();
    let r = s.write_draft("n1", "x", 3);
    assert_eq!(r.unwrap_err(), NoteError::NotADraft);
    assert_eq!(
        NoteError::NotADraft.message(),
        "Only drafts can be auto-saved."
    );
}

#[test]
fn save_on_draft_is_refused() {
    let mut s = store();
    s.create_draft_with_id(String::from("n1"), 1).unwrap();
    let r = s.save("n1", "x", 2);
    assert_eq!(r.unwrap_err(), NoteError::NotSaved);
    assert_eq!(
        NoteError::NotSaved.message(),
        "Only saved notes can be saved with Cmd+S."
    );
}

#[test]
fn save_as_moves_draft_to_external_path() {
    let mut s = store();
    s.create_draft_with_id(String::from("n1"), 1).unwrap();
    let meta = s
        .save_as("n1", "ext/doc.md", "# T\np", Some(vec![1, 2]), 9)
        .unwrap();
    assert_eq!(meta.storage, NoteStorage::Saved);
    assert_eq!(meta.file_path, "ext/doc.md");
    assert_eq!(meta.title, "T");
    assert_eq!(s.get("n1").unwrap().content, "# T\np");
    assert_eq!(s.get_bookmark("n1").unwrap(), Some(vec![1, 2]));
}

#[test]
fn save_updates_saved_note() {
    let mut s = store();
    s.create_draft_with_id(String::from("n1"), 1).unwrap();
    s.save_as("n1", "ext/doc.md", "old", None, 2).unwrap();
    let meta = s.save("n1", "new body", 3).unwrap();
    assert_eq!(meta.title, "new body");
    assert_eq!(s.get("n1").unwrap().content, "new body");
}

#[test]
fn pin_limit_is_enforced_and_state_unchanged() {
    let mut s = store();
    for i in 0..6 {
        s.create_draft_with_id(format!("n{i}"), i as i64).unwrap();
    }
    for i in 0..5 {
        s.set_pinned(&format!("n{i}"), true, 100).unwrap();
    }
    let before: Vec<(String, bool, i64)> = {
        let l = s.list();
        l.active
            .iter()
            .map(|m| (m.id.clone(), m.is_pinned, m.sort_order))
            .collect()
    };
    let r = s.set_pinned("n5", true, 200);
    assert_eq!(r.unwrap_err(), NoteError::PinLimitExceeded);
    assert_eq!(
        NoteError::PinLimitExceeded.message(),
        "You can only pin up to 5 notes."
    );
    let after: Vec<(String, bool, i64)> = {
        let l = s.list();
        l.active
            .iter()
            .map(|m| (m.id.clone(), m.is_pinned, m.sort_order))
            .collect()
    };
    assert_eq!(before, after);
}

#[test]
fn pinning_is_idempotent() {
    let mut s = store();
    s.create_draft_with_id(String::from("n1"), 1).unwrap();
    let m1 = s.set_pinned("n1", true, 10).unwrap();
    let m2 = s.set_pinned("n1", true, 20).unwrap();
    assert_eq!(m1.sort_order, m2.sort_order);
    assert_eq!(m1.last_interaction, m2.last_interaction);
}

#[test]
fn unpin_resets_last_interaction() {
    let mut s = store();
    s.create_draft_with_id(String::from("n1"), 1).unwrap();
    s.set_pinned("n1", true, 10).unwrap();
    let meta = s.set_pinned("n1", false, 777).unwrap();
    assert!(!meta.is_pinned);
    assert_eq!(meta.last_interaction, 777);
}

#[test]
fn reorder_sets_positions_and_list_shows_them() {
    let mut s = store();
    for id in ["a", "b", "c"] {
        s.create_draft_with_id(String::from(id), 1).unwrap();
    }
    s.reorder(&vec![
        String::from("b"),
        String::from("a"),
        String::from("c"),
    ])
    .unwrap();
    let l = s.list();
    let order: Vec<String> = l.active.iter().map(|m| m.id.clone()).collect();
    assert_eq!(order, vec!["b", "a", "c"]);
}

#[test]
fn reorder_ignores_trashed_ids() {
    let mut s = store();
    for id in ["a", "b"] {
        s.create_draft_with_id(String::from(id), 1).unwrap();
    }
    s.trash("b", 5).unwrap();
    let before = s.get_meta("b").unwrap();
    s.reorder(&vec![String::from("b"), String::from("a")]).unwrap();
    let after = s.get_meta("b").unwrap();
    assert_eq!(before.sort_order, after.sort_order);
    assert!(after.is_trashed);
}

#[test]
fn list_orders_pinned_first_then_sort_key() {
    let mut s = store();
    for id in ["a", "b", "c", "d"] {
        s.create_draft_with_id(String::from(id), 1).unwrap();
    }
    s.set_pinned("c", true, 2).unwrap();
    let l = s.list();
    let order: Vec<String> = l.active.iter().map(|m| m.id.clone()).collect();
    assert_eq!(order, vec!["c", "a", "b", "d"]);
}

#[test]
fn list_orders_trash_newest_first() {
    let mut s = store();
    for id in ["a", "b", "c"] {
        s.create_draft_with_id(String::from(id), 1).unwrap();
    }
    s.trash("a", 10).unwrap();
    s.trash("b", 30).unwrap();
    s.trash("c", 20).unwrap();
    let l = s.list();
    let order: Vec<String> = l.trashed.iter().map(|m| m.id.clone()).collect();
    assert_eq!(order, vec!["b", "c", "a"]);
    assert!(l.active.is_empty());
}

#[test]
fn trash_then_restore_round_trips_a_draft() {
    let mut s = store();
    s.create_draft_with_id(String::from("n1"), 1).unwrap();
    s.write_draft("n1", "body", 2).unwrap();
    let trashed = s.trash("n1", 50).unwrap();
    assert!(trashed.is_trashed);
    assert_eq!(trashed.trashed_at, Some(50));
    assert!(!trashed.is_pinned);
    assert_eq!(trashed.file_path, "app/trash/n1.md");
    let restored = s.restore("n1").unwrap();
    assert_eq!(restored.file_path, "app/drafts/n1.md");
    assert!(!restored.is_trashed);
    assert_eq!(restored.trashed_at, None);
    assert_eq!(s.get("n1").unwrap().content, "body");
}

#[test]
fn trash_is_idempotent_and_restore_of_active_is_noop() {
    let mut s = store();
    s.create_draft_with_id(String::from("n1"), 1).unwrap();
    let m1 = s.trash("n1", 10).unwrap();
    let m2 = s.trash("n1", 99).unwrap();
    assert_eq!(m1.trashed_at, m2.trashed_at);
    s.restore("n1").unwrap();
    let m3 = s.restore("n1").unwrap();
    assert_eq!(m3.trashed_at, None);
}

#[test]
fn trash_failure_leaves_metadata_untouched() {
    let mut s = store();
    s.create_draft_with_id(String::from("d1"), 1).unwrap();
    s.create_draft_with_id(String::from("d2"), 2).unwrap();
    // Point d2's metadata at d1's content file, as a platform relocation
    // would, then move the file away by trashing d1: d2's move now fails.
    s.apply_scoped_updates("d2", None, Some(String::from("app/drafts/d1.md")))
        .unwrap();
    s.trash("d1", 10).unwrap();
    s.delete_forever("d1").unwrap();
    let before = s.get_meta("d2").unwrap();
    let r = s.trash("d2", 20);
    assert_eq!(r.unwrap_err(), NoteError::IoFailure);
    let after = s.get_meta("d2").unwrap();
    assert!(!after.is_trashed);
    assert_eq!(before.file_path, after.file_path);
}

#[test]
fn trash_with_no_file_name_is_invalid_path() {
    let mut s = store();
    s.create_draft_with_id(String::from("d1"), 1).unwrap();
    s.apply_scoped_updates("d1", None, Some(String::from("somewhere/")))
        .unwrap();
    let r = s.trash("d1", 5);
    assert_eq!(r.unwrap_err(), NoteError::InvalidPath);
    assert_eq!(NoteError::InvalidPath.message(), "Invalid file path");
}

#[test]
fn delete_forever_removes_the_row() {
    let mut s = store();
    s.create_draft_with_id(String::from("n1"), 1).unwrap();
    s.delete_forever("n1").unwrap();
    assert_eq!(s.get_meta("n1").unwrap_err(), NoteError::NotFound);
    assert_eq!(s.delete_forever("n1").unwrap_err(), NoteError::NotFound);
}

#[test]
fn import_new_path_creates_saved_row() {
    let mut s = store();
    let nc = s
        .import_file_with_id(
            String::from("i1"),
            "ext/a.md",
            "ext/a.md",
            "# Title\nPrev",
            Some(vec![7]),
            9,
        )
        .unwrap();
    assert_eq!(nc.meta.storage, NoteStorage::Saved);
    assert_eq!(nc.meta.file_path, "ext/a.md");
    assert_eq!(nc.meta.title, "Title");
    assert_eq!(nc.content, "# Title\nPrev");
    assert_eq!(s.get_bookmark("i1").unwrap(), Some(vec![7]));
}

#[test]
fn import_tracked_path_updates_in_place() {
    let mut s = store();
    s.import_file_with_id(String::from("i1"), "ext/a.md", "ext/a.md", "old", None, 1)
        .unwrap();
    let n_before = s.list().active.len();
    let nc = s
        .import_file_with_id(String::from("i2"), "ext/a.md", "ext/a.md", "new text", None, 2)
        .unwrap();
    assert_eq!(nc.meta.id, "i1");
    assert_eq!(nc.meta.title, "new text");
    assert_eq!(s.list().active.len(), n_before);
    assert_eq!(s.get_meta("i2").unwrap_err(), NoteError::NotFound);
}

#[test]
fn import_trashed_tracked_path_restores_it() {
    let mut s = store();
    s.import_file_with_id(String::from("i1"), "ext/a.md", "ext/a.md", "old", None, 1)
        .unwrap();
    s.trash("i1", 5).unwrap();
    let nc = s
        .import_file_with_id(String::from("i2"), "ext/a.md", "ext/a.md", "back", None, 9)
        .unwrap();
    assert_eq!(nc.meta.id, "i1");
    assert!(!nc.meta.is_trashed);
    assert_eq!(nc.meta.trashed_at, None);
    assert!(s.list().trashed.is_empty());
}

#[test]
fn import_resolved_path_updates_stored_path() {
    let mut s = store();
    s.import_file_with_id(String::from("i1"), "ext/a.md", "ext/a.md", "v1", None, 1)
        .unwrap();
    // The platform resolved the old path to a new location.
    let nc = s
        .import_file_with_id(
            String::from("i2"),
            "ext/a.md",
            "moved/a.md",
            "v2",
            Some(vec![9]),
            2,
        )
        .unwrap();
    assert_eq!(nc.meta.id, "i1");
    assert_eq!(nc.meta.file_path, "moved/a.md");
    assert_eq!(s.get("i1").unwrap().content, "v2");
}

#[test]
fn set_active_bumps_recency_only() {
    let mut s = store();
    s.create_draft_with_id(String::from("n1"), 1).unwrap();
    s.set_active("n1", 42).unwrap();
    assert_eq!(s.get_meta("n1").unwrap().last_interaction, 42);
    s.set_active("ghost", 50).unwrap();
}

#[test]
fn apply_scoped_updates_moves_path_and_token() {
    let mut s = store();
    s.create_draft_with_id(String::from("n1"), 1).unwrap();
    s.save_as("n1", "ext/a.md", "body", None, 2).unwrap();
    s.apply_scoped_updates("n1", Some(vec![3, 4]), Some(String::from("ext/b.md")))
        .unwrap();
    let m = s.get_meta("n1").unwrap();
    assert_eq!(m.file_path, "ext/b.md");
    assert_eq!(s.get_bookmark("n1").unwrap(), Some(vec![3, 4]));
    assert_eq!(s.get("n1").unwrap().content, "body");
}
