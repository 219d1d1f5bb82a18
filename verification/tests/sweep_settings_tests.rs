use augenblick::clock::now_ms;
use augenblick::error::NoteError;
use augenblick::scoped::with_scoped_file;
use augenblick::settings::{i64_to_string, parse_i64};
use augenblick::store::NoteStore;
use augenblick::types::{AppPaths, NoteStorage, storage_from_db, storage_to_db};

fn store() -> NoteStore {
    NoteStore::new(AppPaths {
        app_data_dir: String::from("app"),
        drafts_dir: String::from("app/drafts"),
        trash_dir: String::from("app/trash"),
        db_path: String::from("app/notes.db"),
    })
}

#[test]
fn settings_defaults_are_written_back() {
    let mut s = store();
    let all = s.settings_get_all();
    assert_eq!(all.expiry_minutes, 10080);
    assert_eq!(all.trash_retention_days, 30);
    assert_eq!(all.theme, "dark");
    // written back: a second read sees stored values
    let again = s.settings_get_all();
    assert_eq!(again.expiry_minutes, 10080);
    assert_eq!(again.theme, "dark");
}

#[test]
fn settings_set_overrides_and_bad_values_fall_back() {
    let mut s = store();
    s.settings_set("expiry_minutes", "90").unwrap();
    assert_eq!(s.get_setting_int("expiry_minutes", 10080), 90);
    s.settings_set("expiry_minutes", "ninety").unwrap();
    assert_eq!(s.get_setting_int("expiry_minutes", 10080), 10080);
    s.settings_set("theme", "light").unwrap();
    assert_eq!(s.settings_get_all().theme, "light");
}

#[test]
fn parse_i64_handles_signs_and_overflow() {
    assert_eq!(parse_i64("0"), Some(0));
    assert_eq!(parse_i64("-17"), Some(-17));
    assert_eq!(parse_i64("+17"), Some(17));
    assert_eq!(parse_i64("9223372036854775807"), Some(i64::MAX));
    assert_eq!(parse_i64("-9223372036854775808"), Some(i64::MIN));
    assert_eq!(parse_i64("9223372036854775808"), None);
    assert_eq!(parse_i64("99999999999999999999999999"), None);
    assert_eq!(parse_i64(""), None);
    assert_eq!(parse_i64("+"), None);
    assert_eq!(parse_i64("1 2"), None);
    assert_eq!(parse_i64(" 1"), None);
}

#[test]
fn i64_renders_in_decimal() {
    assert_eq!(i64_to_string(0), "0");
    assert_eq!(i64_to_string(10080), "10080");
    assert_eq!(i64_to_string(-45), "-45");
    assert_eq!(i64_to_string(i64::MIN), "-9223372036854775808");
}

#[test]
fn sweep_with_zero_expiry_trashes_stale_unpinned_notes() {
    let mut s = store();
    s.settings_set("expiry_minutes", "0").unwrap();
    s.settings_set("trash_retention_days", "30").unwrap();
    s.create_draft_with_id(String::from("stale"), 100).unwrap();
    s.create_draft_with_id(String::from("pinned"), 100).unwrap();
    s.set_pinned("pinned", true, 100).unwrap();
    s.sweep(100).unwrap();
    assert!(s.get_meta("stale").unwrap().is_trashed);
    assert_eq!(s.get_meta("stale").unwrap().trashed_at, Some(100));
    assert!(!s.get_meta("pinned").unwrap().is_trashed);
}

#[test]
fn sweep_with_zero_retention_drops_trashed_notes() {
    let mut s = store();
    s.settings_set("expiry_minutes", "10080").unwrap();
    s.settings_set("trash_retention_days", "0").unwrap();
    s.create_draft_with_id(String::from("gone"), 100).unwrap();
    s.create_draft_with_id(String::from("kept"), 100).unwrap();
    s.import_file_with_id(String::from("ext"), "e/a.md", "e/a.md", "x", None, 100)
        .unwrap();
    s.trash("gone", 150).unwrap();
    s.trash("ext", 150).unwrap();
    s.sweep(200).unwrap();
    assert_eq!(s.get_meta("gone").unwrap_err(), NoteError::NotFound);
    assert_eq!(s.get_meta("ext").unwrap_err(), NoteError::NotFound);
    assert!(!s.get_meta("kept").unwrap().is_trashed);
}

#[test]
fn note_pinned_past_expiry_survives_sweep_after_unpinning() {
    let mut s = store();
    s.settings_set("expiry_minutes", "1").unwrap();
    s.settings_set("trash_retention_days", "30").unwrap();
    s.create_draft_with_id(String::from("n1"), 0).unwrap();
    s.set_pinned("n1", true, 0).unwrap();
    // Long past the expiry window while pinned; pin holds the clock.
    let later: i64 = 10_000_000;
    s.sweep(later).unwrap();
    assert!(!s.get_meta("n1").unwrap().is_trashed);
    // Unpinning resets the window: the very next sweep leaves it alone.
    s.set_pinned("n1", false, later).unwrap();
    s.sweep(later).unwrap();
    assert!(!s.get_meta("n1").unwrap().is_trashed);
}

#[test]
fn sweep_skips_a_note_whose_move_fails_and_trashes_the_rest() {
    let mut s = store();
    s.settings_set("expiry_minutes", "0").unwrap();
    s.settings_set("trash_retention_days", "30").unwrap();
    s.create_draft_with_id(String::from("ok"), 100).unwrap();
    s.create_draft_with_id(String::from("broken"), 100).unwrap();
    // Point the second note at a path with no file behind it.
    s.apply_scoped_updates("broken", None, Some(String::from("gone/away.md")))
        .unwrap();
    s.create_draft_with_id(String::from("gonefile"), 100).unwrap();
    s.apply_scoped_updates("gonefile", None, Some(String::from("app/drafts/ok.md")))
        .unwrap();
    s.sweep(100).unwrap();
    assert!(s.get_meta("ok").unwrap().is_trashed);
    // "broken" moved fine: scoped updates carried its content to the new path.
    assert!(s.get_meta("broken").unwrap().is_trashed);
    // "gonefile" shares ok's old path, which the sweep already moved away:
    // its own move fails, and it is skipped untouched.
    assert!(!s.get_meta("gonefile").unwrap().is_trashed);
}

#[test]
fn equal_trash_times_keep_row_order() {
    let mut s = store();
    for id in ["a", "b", "c"] {
        s.create_draft_with_id(String::from(id), 1).unwrap();
    }
    s.trash("a", 10).unwrap();
    s.trash("b", 10).unwrap();
    s.trash("c", 10).unwrap();
    let l = s.list();
    let order: Vec<String> = l.trashed.iter().map(|m| m.id.clone()).collect();
    assert_eq!(order, vec!["a", "b", "c"]);
}

#[test]
fn app_state_round_trips() {
    let mut s = store();
    s.app_state_set("last_note", "abc").unwrap();
    s.app_state_set("last_note", "def").unwrap();
    s.app_state_set("zoom", "2").unwrap();
    let all = s.app_state_get_all();
    assert_eq!(all.len(), 2);
    assert!(all.contains(&(String::from("last_note"), String::from("def"))));
    assert!(all.contains(&(String::from("zoom"), String::from("2"))));
}

#[test]
fn storage_tags_round_trip() {
    assert_eq!(storage_to_db(NoteStorage::Draft), "draft");
    assert_eq!(storage_to_db(NoteStorage::Saved), "saved");
    assert_eq!(storage_from_db("saved"), NoteStorage::Saved);
    assert_eq!(storage_from_db("draft"), NoteStorage::Draft);
    assert_eq!(storage_from_db("anything"), NoteStorage::Draft);
}

#[test]
fn clock_reports_nonnegative_milliseconds() {
    assert!(now_ms() >= 0);
}

#[test]
fn scoped_passthrough_runs_the_operation() {
    let r = with_scoped_file("some/path.md", None, |p: &str| {
        Ok::<String, String>(format!("read:{p}"))
    })
    .unwrap();
    assert_eq!(r.value, "read:some/path.md");
    assert!(r.refreshed_bookmark.is_none());
    assert!(r.resolved_path.is_none());
    let e = with_scoped_file("p", None, |_p: &str| Err::<(), String>(String::from("boom")));
    assert_eq!(e.unwrap_err(), "boom");
}
