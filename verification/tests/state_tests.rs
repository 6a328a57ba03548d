use rusty_notes::model::{ConfirmKind, Confirmation};
use rusty_notes::state::{note_path, AppState};

fn cs(s: &str) -> Vec<char> {
    s.chars().collect()
}

fn s_of(v: &Vec<char>) -> String {
    v.iter().collect()
}

fn titles(state: &AppState) -> Vec<String> {
    state.notes.iter().map(|n| s_of(&n.title)).collect()
}

#[test]
fn new_state_is_empty() {
    let s = AppState::new(30);
    assert_eq!(s.notes.len(), 0);
    assert_eq!(s.open_tabs.len(), 0);
    assert!(s.current_tab.is_none());
    assert_eq!(s.confirmation, Confirmation::Idle);
}

#[test]
fn create_note_opens_and_selects_it() {
    let mut s = AppState::new(30);
    assert_eq!(s_of(&s.create_title()), "Note_1");
    let id = s.create_note(true, 0).expect("creation succeeds");
    assert_eq!(titles(&s), vec!["Note_1".to_string()]);
    assert_eq!(s.open_tabs, vec![id]);
    assert_eq!(s.current_tab, Some(id));
    assert!(!s.notes[0].dirty);
    assert_eq!(s_of(&s.notes[0].content), "");
}

#[test]
fn create_note_fails_silently_when_write_fails() {
    let mut s = AppState::new(30);
    assert!(s.create_note(false, 0).is_none());
    assert_eq!(s.notes.len(), 0);
    assert_eq!(s.open_tabs.len(), 0);
}

#[test]
fn create_note_refuses_a_taken_path() {
    let mut s = AppState::new(30);
    assert!(s.add_loaded_note(cs("Note_2"), cs("x"), 0));
    // One note is present, so the synthetic title would be Note_2 again.
    assert_eq!(s_of(&s.create_title()), "Note_2");
    assert!(s.create_note(true, 0).is_none());
    assert_eq!(s.notes.len(), 1);
}

#[test]
fn loaded_notes_are_sorted_case_insensitively() {
    let mut s = AppState::new(30);
    assert!(s.add_loaded_note(cs("banana"), cs(""), 0));
    assert!(s.add_loaded_note(cs("Apple"), cs(""), 0));
    assert!(s.add_loaded_note(cs("cherry"), cs(""), 0));
    assert_eq!(titles(&s), vec!["Apple", "banana", "cherry"]);
}

#[test]
fn equal_sort_keys_keep_insertion_order() {
    let mut s = AppState::new(30);
    assert!(s.add_loaded_note(cs("ab"), cs(""), 0));
    assert!(s.add_loaded_note(cs("AB"), cs(""), 0));
    assert_eq!(titles(&s), vec!["ab", "AB"]);
}

#[test]
fn duplicate_title_is_not_loaded_twice() {
    let mut s = AppState::new(30);
    assert!(s.add_loaded_note(cs("a"), cs("first"), 0));
    assert!(!s.add_loaded_note(cs("a"), cs("second"), 0));
    assert_eq!(s.notes.len(), 1);
    assert_eq!(s_of(&s.notes[0].content), "first");
}

#[test]
fn open_is_idempotent_and_selects() {
    let mut s = AppState::new(30);
    assert!(s.add_loaded_note(cs("a"), cs(""), 0));
    assert!(s.add_loaded_note(cs("b"), cs(""), 0));
    let a = s.notes[0].id;
    let b = s.notes[1].id;
    s.open_note(a);
    s.open_note(b);
    s.open_note(a);
    assert_eq!(s.open_tabs, vec![a, b]);
    assert_eq!(s.current_tab, Some(a));
}

#[test]
fn select_requires_an_open_tab() {
    let mut s = AppState::new(30);
    assert!(s.add_loaded_note(cs("a"), cs(""), 0));
    assert!(s.add_loaded_note(cs("b"), cs(""), 0));
    let a = s.notes[0].id;
    let b = s.notes[1].id;
    s.open_note(a);
    s.select_note(b);
    assert_eq!(s.current_tab, Some(a));
    s.open_note(b);
    s.select_note(a);
    assert_eq!(s.current_tab, Some(a));
}

#[test]
fn deleting_selected_note_selects_last_remaining_tab() {
    let mut s = AppState::new(30);
    assert!(s.add_loaded_note(cs("a"), cs(""), 0));
    assert!(s.add_loaded_note(cs("b"), cs(""), 0));
    assert!(s.add_loaded_note(cs("c"), cs(""), 0));
    let a = s.notes[0].id;
    let b = s.notes[1].id;
    let c = s.notes[2].id;
    s.open_note(a);
    s.open_note(b);
    s.open_note(c);
    s.select_note(b);
    s.request_delete(b);
    s.confirm();
    assert_eq!(titles(&s), vec!["a", "c"]);
    assert_eq!(s.open_tabs, vec![a, c]);
    assert_eq!(s.current_tab, Some(c));
}

#[test]
fn deleting_last_open_note_clears_selection() {
    let mut s = AppState::new(30);
    assert!(s.add_loaded_note(cs("only"), cs(""), 0));
    let id = s.notes[0].id;
    s.open_note(id);
    s.request_delete(id);
    s.confirm();
    assert_eq!(s.notes.len(), 0);
    assert_eq!(s.open_tabs.len(), 0);
    assert!(s.current_tab.is_none());
}

#[test]
fn deleting_unselected_note_keeps_selection() {
    let mut s = AppState::new(30);
    assert!(s.add_loaded_note(cs("a"), cs(""), 0));
    assert!(s.add_loaded_note(cs("b"), cs(""), 0));
    let a = s.notes[0].id;
    let b = s.notes[1].id;
    s.open_note(a);
    s.open_note(b);
    s.select_note(a);
    s.request_delete(b);
    s.confirm();
    assert_eq!(s.current_tab, Some(a));
    assert_eq!(s.open_tabs, vec![a]);
}

#[test]
fn second_request_overwrites_first_and_confirm_acts_on_it() {
    let mut s = AppState::new(30);
    assert!(s.add_loaded_note(cs("a"), cs(""), 0));
    assert!(s.add_loaded_note(cs("b"), cs(""), 0));
    let a = s.notes[0].id;
    let b = s.notes[1].id;
    s.request_delete(a);
    s.request_delete(b);
    assert_eq!(
        s.confirmation,
        Confirmation::Pending { kind: ConfirmKind::DeleteNote, target: b }
    );
    s.confirm();
    assert_eq!(titles(&s), vec!["a"]);
    assert_eq!(s.notes[0].id, a);
    assert_eq!(s.confirmation, Confirmation::Idle);
}

#[test]
fn cancel_discards_the_request_and_deletes_nothing() {
    let mut s = AppState::new(30);
    assert!(s.add_loaded_note(cs("a"), cs(""), 0));
    let a = s.notes[0].id;
    s.request_delete(a);
    s.cancel();
    assert_eq!(s.confirmation, Confirmation::Idle);
    assert_eq!(s.notes.len(), 1);
}

#[test]
fn closing_clean_tab_asks_no_confirmation() {
    let mut s = AppState::new(30);
    assert!(s.add_loaded_note(cs("a"), cs(""), 0));
    let a = s.notes[0].id;
    s.open_note(a);
    s.request_close(a);
    assert_eq!(s.confirmation, Confirmation::Idle);
    assert_eq!(s.open_tabs.len(), 0);
    assert!(s.current_tab.is_none());
}

#[test]
fn closing_dirty_tab_always_asks_confirmation() {
    let mut s = AppState::new(30);
    assert!(s.add_loaded_note(cs("a"), cs(""), 0));
    let a = s.notes[0].id;
    s.open_note(a);
    s.edit_note(a, cs("changed"));
    s.request_close(a);
    assert_eq!(
        s.confirmation,
        Confirmation::Pending { kind: ConfirmKind::CloseUnsavedTab, target: a }
    );
    // The tab is still open until the user decides.
    assert_eq!(s.open_tabs, vec![a]);
    s.confirm();
    assert_eq!(s.open_tabs.len(), 0);
    assert!(s.current_tab.is_none());
    // The note itself survives a forced close.
    assert_eq!(s.notes.len(), 1);
}

#[test]
fn rename_changes_title_path_and_position() {
    let mut s = AppState::new(30);
    assert!(s.add_loaded_note(cs("alpha"), cs(""), 0));
    assert!(s.add_loaded_note(cs("zeta"), cs(""), 0));
    let z = s.notes[1].id;
    s.open_note(z);
    let target = s.rename_target(z, &cs("beta")).expect("a real rename");
    assert_eq!(s_of(&target), "beta");
    s.rename_note(z, &cs("beta"), true);
    assert_eq!(titles(&s), vec!["alpha", "beta"]);
    assert!(s.notes[1].dirty);
    assert_eq!(s.notes[1].id, z);
    assert_eq!(s.current_tab, Some(z));
}

#[test]
fn rename_sanitizes_the_new_title() {
    let mut s = AppState::new(30);
    assert!(s.add_loaded_note(cs("a"), cs(""), 0));
    let a = s.notes[0].id;
    let target = s.rename_target(a, &cs("my note!")).expect("a real rename");
    assert_eq!(s_of(&target), "my_note_");
    s.rename_note(a, &cs("my note!"), true);
    assert_eq!(titles(&s), vec!["my_note_"]);
}

#[test]
fn rename_to_unchanged_sanitized_title_is_noop() {
    let mut s = AppState::new(30);
    assert!(s.add_loaded_note(cs("my_note_"), cs(""), 0));
    let a = s.notes[0].id;
    assert!(s.rename_target(a, &cs("my note!")).is_none());
    s.rename_note(a, &cs("my note!"), true);
    assert_eq!(titles(&s), vec!["my_note_"]);
    assert!(!s.notes[0].dirty);
}

#[test]
fn rename_to_empty_title_is_noop() {
    let mut s = AppState::new(30);
    assert!(s.add_loaded_note(cs("a"), cs(""), 0));
    let a = s.notes[0].id;
    assert!(s.rename_target(a, &cs("")).is_none());
    s.rename_note(a, &cs(""), true);
    assert_eq!(titles(&s), vec!["a"]);
    assert!(!s.notes[0].dirty);
}

#[test]
fn rename_to_taken_title_is_refused() {
    let mut s = AppState::new(30);
    assert!(s.add_loaded_note(cs("a"), cs(""), 0));
    assert!(s.add_loaded_note(cs("b"), cs(""), 0));
    let a = s.notes[0].id;
    assert!(s.rename_target(a, &cs("b")).is_none());
    s.rename_note(a, &cs("b"), true);
    assert_eq!(titles(&s), vec!["a", "b"]);
}

#[test]
fn failed_file_rename_leaves_the_note_unchanged() {
    let mut s = AppState::new(30);
    assert!(s.add_loaded_note(cs("a"), cs(""), 0));
    let a = s.notes[0].id;
    assert!(s.rename_target(a, &cs("b")).is_some());
    s.rename_note(a, &cs("b"), false);
    assert_eq!(titles(&s), vec!["a"]);
    assert!(!s.notes[0].dirty);
}

#[test]
fn save_target_is_the_dirty_selected_note() {
    let mut s = AppState::new(30);
    assert!(s.add_loaded_note(cs("a"), cs(""), 0));
    let a = s.notes[0].id;
    assert!(s.save_target().is_none());
    s.open_note(a);
    assert!(s.save_target().is_none());
    s.edit_note(a, cs("body"));
    assert_eq!(s.save_target(), Some(a));
    s.mark_saved(a, 7);
    assert!(s.save_target().is_none());
    assert!(!s.notes[0].dirty);
    assert_eq!(s.notes[0].last_saved, 7);
}

#[test]
fn autosave_saves_old_dirty_notes_and_skips_young_ones() {
    let mut s = AppState::new(30);
    assert!(s.add_loaded_note(cs("old"), cs(""), 0));
    assert!(s.add_loaded_note(cs("young"), cs(""), 25));
    let old_id = s.notes[0].id;
    let young_id = s.notes[1].id;
    s.edit_note(old_id, cs("x"));
    s.edit_note(young_id, cs("y"));
    let due = s.autosave_candidates(30);
    assert_eq!(due, vec![old_id]);
    for id in due {
        s.mark_saved(id, 30);
    }
    assert!(!s.notes[0].dirty);
    assert!(s.notes[1].dirty);
    assert_eq!(s.notes[1].last_saved, 25);
}

#[test]
fn autosave_skips_clean_notes() {
    let mut s = AppState::new(30);
    assert!(s.add_loaded_note(cs("a"), cs(""), 0));
    assert!(s.autosave_candidates(1000).is_empty());
}

#[test]
fn save_then_load_reproduces_content() {
    // The library side of the round trip: what mark_saved records is the
    // content the caller wrote, and a reload of those very bytes stores them
    // unchanged.
    let mut s = AppState::new(30);
    assert!(s.add_loaded_note(cs("note"), cs(""), 0));
    let id = s.notes[0].id;
    let body = "line one\n\n# not a heading in storage\nbyte-for-byte \u{1F49A}";
    s.edit_note(id, cs(body));
    let written: Vec<char> = s.notes[0].content.clone();
    s.mark_saved(id, 1);
    assert_eq!(s_of(&s.notes[0].content), body);

    let mut reloaded = AppState::new(30);
    assert!(reloaded.add_loaded_note(cs("note"), written, 2));
    assert_eq!(s_of(&reloaded.notes[0].content), body);
    assert_eq!(
        s_of(&reloaded.notes[0].content).into_bytes(),
        body.as_bytes().to_vec()
    );
}

#[test]
fn count_words_and_chars_matches_content() {
    let mut s = AppState::new(30);
    assert!(s.add_loaded_note(cs("a"), cs("hello  world\nagain"), 0));
    assert_eq!(s.count_words_and_chars(0), (3, 18));
    assert_eq!(s.count_words_and_chars(5), (0, 0));
}

#[test]
fn find_note_by_path_matches_full_file_name() {
    let mut s = AppState::new(30);
    assert!(s.add_loaded_note(cs("alpha"), cs(""), 0));
    assert!(s.add_loaded_note(cs("beta"), cs(""), 0));
    assert_eq!(s.find_note_by_path(&cs("beta.md")), Some(1));
    assert_eq!(s.find_note_by_path(&cs("alpha.md")), Some(0));
    assert_eq!(s.find_note_by_path(&cs("alpha")), None);
    assert_eq!(s.find_note_by_path(&cs("gamma.md")), None);
    assert_eq!(s_of(&note_path(&cs("alpha"))), "alpha.md");
}

#[test]
fn filter_notes_is_case_insensitive_over_title_and_content() {
    let mut s = AppState::new(30);
    assert!(s.add_loaded_note(cs("Groceries"), cs("Apples and Pears"), 0));
    assert!(s.add_loaded_note(cs("work"), cs("meeting notes"), 0));
    assert_eq!(s.filter_notes(&cs("")), vec![0, 1]);
    assert_eq!(s.filter_notes(&cs("GROC")), vec![0]);
    assert_eq!(s.filter_notes(&cs("pears")), vec![0]);
    assert_eq!(s.filter_notes(&cs("NOTES")), vec![1]);
    assert_eq!(s.filter_notes(&cs("absent")), Vec::<usize>::new());
}

#[test]
fn filter_notes_lowers_beyond_ascii() {
    let mut s = AppState::new(30);
    assert!(s.add_loaded_note(cs("diary"), cs("spät am Abend"), 0));
    assert_eq!(s.filter_notes(&cs("SPÄT")), vec![0]);
    assert_eq!(s.filter_notes(&cs("abend")), vec![0]);
    assert_eq!(s.filter_notes(&cs("früh")), Vec::<usize>::new());
}

#[test]
fn word_count_uses_unicode_whitespace() {
    let mut s = AppState::new(30);
    assert!(s.add_loaded_note(cs("a"), cs("one\u{a0}two"), 0));
    assert_eq!(s.count_words_and_chars(0), (2, 7));
}

#[test]
fn collection_stays_sorted_across_mixed_operations() {
    let mut s = AppState::new(30);
    assert!(s.add_loaded_note(cs("delta"), cs(""), 0));
    assert!(s.add_loaded_note(cs("Bravo"), cs(""), 0));
    let id1 = s.create_note(true, 0).expect("created");
    s.rename_note(id1, &cs("alpha"), true);
    assert!(s.add_loaded_note(cs("charlie"), cs(""), 0));
    let d = s.find_note_by_path(&cs("delta.md")).expect("delta present");
    let del_id = s.notes[d].id;
    s.request_delete(del_id);
    s.confirm();
    assert_eq!(titles(&s), vec!["alpha", "Bravo", "charlie"]);
}
