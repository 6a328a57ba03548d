//! The library's laws: properties that relate several operations, stated over
//! the model's transition functions and proved once and for all. Every
//! executable operation's contract says that the new state equals one of
//! those transitions and is well-formed, so each law below holds across any
//! sequence of calls.

use vstd::prelude::*;

use crate::model::Confirmation;
use crate::model::NoteModel;
use crate::model::ConfirmKind;
use crate::model::StateModel;
use crate::model::autosave_due;
use crate::model::confirm_spec;
use crate::model::delete_spec;
use crate::model::due_ids;
use crate::model::has_note;
use crate::model::last_or_none;
use crate::model::lemma_note_index;
use crate::model::lemma_remove_has;
use crate::model::mark_saved_spec;
use crate::model::note_index;
use crate::model::rename_plan;
use crate::model::request_close_spec;
use crate::model::request_delete_spec;
use crate::model::tabs_without;
use crate::text::sanitize_text;
use crate::text::title_le;

verus! {

/// Law: in every well-formed state — and every operation of this library
/// requires and re-establishes well-formedness — the note collection is
/// sorted by case-insensitive title, every open tab refers to a note in the
/// collection, and the current selection, when present, is an open tab whose
/// note is in the collection; with no tab open there is no selection.
pub proof fn lemma_references_valid(m: StateModel)
    requires
        m.wf(),
    ensures
        forall|i: int, j: int|
            0 <= i < j < m.notes.len() ==> title_le(m.notes[i].title, m.notes[j].title),
        forall|i: int|
            0 <= i < m.open_tabs.len() ==> has_note(m.notes, #[trigger] m.open_tabs[i]),
        m.current_tab is Some ==> m.open_tabs.contains(m.current_tab->0) && has_note(
            m.notes,
            m.current_tab->0,
        ),
        m.open_tabs.len() == 0 ==> m.current_tab is None,
{
    if m.current_tab is Some {
        let id = m.current_tab->0;
        let w = choose|w: int| 0 <= w < m.open_tabs.len() && m.open_tabs[w] == id;
        assert(has_note(m.notes, m.open_tabs[w]));
    }
}

/// Law: deleting the note the current selection refers to selects the tab
/// that is now last in the remaining open tabs, or nothing when no tab
/// remains.
pub proof fn lemma_delete_selected_reselects(m: StateModel, id: u64)
    requires
        m.wf(),
        has_note(m.notes, id),
        m.current_tab == Some(id),
    ensures
        delete_spec(m, id).open_tabs == tabs_without(m.open_tabs, id),
        delete_spec(m, id).current_tab == last_or_none(delete_spec(m, id).open_tabs),
{
}

/// Law: the same, reached through the confirmation workflow: confirming a
/// pending deletion of the selected note reselects the last remaining tab,
/// or nothing.
pub proof fn lemma_confirm_delete_reselects(m: StateModel, id: u64)
    requires
        m.wf(),
        m.confirmation == (Confirmation::Pending { kind: ConfirmKind::DeleteNote, target: id }),
        m.current_tab == Some(id),
    ensures
        confirm_spec(m).open_tabs == tabs_without(m.open_tabs, id),
        confirm_spec(m).current_tab == last_or_none(confirm_spec(m).open_tabs),
{
}

/// Law: renaming a note to a title whose sanitized form equals its current
/// title plans nothing: no file operation is requested, and by the contract
/// of the rename operation the state — dirty flag included — is unchanged.
pub proof fn lemma_rename_unchanged_noop(m: StateModel, id: u64, new_title: Seq<char>)
    requires
        m.wf(),
        has_note(m.notes, id),
        m.note_of(id).title == sanitize_text(new_title),
    ensures
        rename_plan(m, id, new_title) is None,
{
}

/// Which ids the autosave candidate list holds: exactly the ids of the due
/// notes.
pub proof fn lemma_due_ids_elems(notes: Seq<NoteModel>, now: u64, interval: u64)
    ensures
        forall|id: u64|
            #[trigger] due_ids(notes, now, interval).contains(id) <==> exists|j: int|
                0 <= j < notes.len() && (#[trigger] notes[j]).id == id && autosave_due(
                    notes[j],
                    now,
                    interval,
                ),
    decreases notes.len(),
{
    if notes.len() > 0 {
        let t = notes.drop_last();
        lemma_due_ids_elems(t, now, interval);
        let out = due_ids(notes, now, interval);
        let rest = due_ids(t, now, interval);
        assert forall|id: u64| #[trigger] out.contains(id) implies exists|j: int|
            0 <= j < notes.len() && (#[trigger] notes[j]).id == id && autosave_due(
                notes[j],
                now,
                interval,
            ) by {
            let w = choose|w: int| 0 <= w < out.len() && out[w] == id;
            if autosave_due(notes.last(), now, interval) && w == out.len() - 1 {
                assert(notes[notes.len() - 1].id == id);
            } else {
                assert(rest[w] == id);
                assert(rest.contains(id));
                let j = choose|j: int|
                    0 <= j < t.len() && (#[trigger] t[j]).id == id && autosave_due(
                        t[j],
                        now,
                        interval,
                    );
                assert(notes[j].id == id);
            }
        }
        assert forall|id: u64|
            exists|j: int|
                0 <= j < notes.len() && (#[trigger] notes[j]).id == id && autosave_due(
                    notes[j],
                    now,
                    interval,
                ) implies #[trigger] out.contains(id) by {
            let j = choose|j: int|
                0 <= j < notes.len() && (#[trigger] notes[j]).id == id && autosave_due(
                    notes[j],
                    now,
                    interval,
                );
            if j == notes.len() - 1 {
                assert(out.last() == id);
            } else {
                assert(t[j] == notes[j]);
                assert(rest.contains(id));
                let w = choose|w: int| 0 <= w < rest.len() && rest[w] == id;
                assert(out[w] == id);
            }
        }
    }
}

/// Law: at a scheduler tick, a dirty note saved at least one interval ago is
/// among the autosave candidates, and recording its save clears its dirty
/// flag and keeps its content; a note not due — clean, or saved more recently
/// — is not a candidate, so the tick does not touch it.
pub proof fn lemma_autosave(m: StateModel, i: int, now: u64)
    requires
        m.wf(),
        0 <= i < m.notes.len(),
    ensures
        autosave_due(m.notes[i], now, m.autosave_interval) <==> due_ids(
            m.notes,
            now,
            m.autosave_interval,
        ).contains(m.notes[i].id),
        mark_saved_spec(m, m.notes[i].id, now).notes[i].dirty == false,
        mark_saved_spec(m, m.notes[i].id, now).notes[i].content == m.notes[i].content,
        mark_saved_spec(m, m.notes[i].id, now).notes[i].last_saved == now,
{
    let id = m.notes[i].id;
    lemma_due_ids_elems(m.notes, now, m.autosave_interval);
    assert(has_note(m.notes, id));
    lemma_note_index(m.notes, id);
    assert(note_index(m.notes, id) == i);
    if due_ids(m.notes, now, m.autosave_interval).contains(id) {
        let j = choose|j: int|
            0 <= j < m.notes.len() && (#[trigger] m.notes[j]).id == id && autosave_due(
                m.notes[j],
                now,
                m.autosave_interval,
            );
        assert(j == i);
    }
}

/// Law: a second deletion request overwrites the first — exactly one request
/// is pending, for the second target — and confirming it deletes the second
/// note while the first stays in the collection.
pub proof fn lemma_request_overwrites(m: StateModel, a: u64, b: u64)
    requires
        m.wf(),
        has_note(m.notes, a),
        has_note(m.notes, b),
        a != b,
    ensures
        ({
            let m2 = request_delete_spec(request_delete_spec(m, a), b);
            &&& m2.confirmation == (Confirmation::Pending {
                kind: ConfirmKind::DeleteNote,
                target: b,
            })
            &&& confirm_spec(m2).notes == delete_spec(m2, b).notes
            &&& !has_note(confirm_spec(m2).notes, b)
            &&& has_note(confirm_spec(m2).notes, a)
            &&& confirm_spec(m2).confirmation == Confirmation::Idle
        }),
{
    let m2 = request_delete_spec(request_delete_spec(m, a), b);
    assert(m2.notes == m.notes);
    let i = note_index(m2.notes, b);
    lemma_note_index(m2.notes, b);
    lemma_remove_has(m2.notes, i);
}

/// Law: requesting to close a clean open tab leaves the pending-confirmation
/// slot exactly as it was — it never creates a request — while requesting to
/// close a dirty open tab always leaves a pending unsaved-close request for
/// that very tab.
pub proof fn lemma_close_confirmation(m: StateModel, id: u64)
    requires
        m.wf(),
        m.open_tabs.contains(id),
    ensures
        !m.note_of(id).dirty ==> request_close_spec(m, id).confirmation == m.confirmation,
        m.note_of(id).dirty ==> request_close_spec(m, id).confirmation == (Confirmation::Pending {
            kind: ConfirmKind::CloseUnsavedTab,
            target: id,
        }),
{
    let w = choose|w: int| 0 <= w < m.open_tabs.len() && m.open_tabs[w] == id;
    assert(has_note(m.notes, m.open_tabs[w]));
}

} // verus!
