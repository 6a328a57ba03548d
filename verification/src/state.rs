//! The executable note-taking state: the sorted note collection, open tabs,
//! current selection and confirmation workflow, with every operation proved
//! against the transition functions of the model. All file input and output
//! is the caller's: operations that depend on a file system outcome take it
//! as an argument (`write_ok`, `fs_ok`) or return what the caller must do
//! (`create_title`, `rename_target`, `save_target`, `autosave_candidates`).

use vstd::prelude::*;

use crate::model::Confirmation;
use crate::model::ConfirmKind;
use crate::model::NoteModel;
use crate::model::StateModel;
use crate::model::autosave_due;
use crate::model::cancel_spec;
use crate::model::close_tab_spec;
use crate::model::confirm_spec;
use crate::model::create_spec;
use crate::model::delete_spec;
use crate::model::due_ids;
use crate::model::edit_spec;
use crate::model::has_note;
use crate::model::insert_pos;
use crate::model::last_or_none;
use crate::model::lemma_cancel_wf;
use crate::model::lemma_close_wf;
use crate::model::lemma_confirm_wf;
use crate::model::lemma_create_wf;
use crate::model::lemma_delete_wf;
use crate::model::lemma_edit_wf;
use crate::model::lemma_insert_pos_first;
use crate::model::lemma_load_wf;
use crate::model::lemma_mark_saved_wf;
use crate::model::lemma_note_index;
use crate::model::lemma_open_wf;
use crate::model::lemma_rename_wf;
use crate::model::lemma_request_close_wf;
use crate::model::lemma_request_delete_wf;
use crate::model::lemma_select_wf;
use crate::model::lemma_tabs_without_push;
use crate::model::load_note_spec;
use crate::model::mark_saved_spec;
use crate::model::note_title_text;
use crate::model::open_spec;
use crate::model::path_of;
use crate::model::rename_plan;
use crate::model::rename_spec;
use crate::model::request_close_spec;
use crate::model::request_delete_spec;
use crate::model::select_spec;
use crate::model::tabs_without;
use crate::model::title_taken;
use crate::render::html_text;
use crate::render::render_html;
use crate::model::match_indices;
use crate::model::save_plan;
use crate::text::chars_equal;
use crate::text::contains_chars;
use crate::text::to_lower_chars;
use crate::text::count_words;
use crate::text::push_decimal;
use crate::text::sanitize_chars;
use crate::text::sub_chars;
use crate::text::title_le;
use crate::text::title_le_chars;
use crate::text::word_count_text;

verus! {

/// One note: a Markdown document backed by the file `path_of(title)` in the
/// notes directory.
pub struct Note {
    /// Stable identity, assigned at creation or load and never reused.
    pub id: u64,
    /// Display name and file stem; sanitized on creation and rename.
    pub title: Vec<char>,
    /// Full text body.
    pub content: Vec<char>,
    /// The content or title differs from the last persisted state.
    pub dirty: bool,
    /// Caller-supplied clock value of the last successful write.
    pub last_saved: u64,
}

impl View for Note {
    type V = NoteModel;

    open spec fn view(&self) -> NoteModel {
        NoteModel {
            id: self.id,
            title: self.title@,
            content: self.content@,
            dirty: self.dirty,
            last_saved: self.last_saved,
        }
    }
}

/// The models of a sequence of notes.
pub open spec fn notes_view(v: Seq<Note>) -> Seq<NoteModel> {
    v.map_values(|n: Note| n@)
}

/// The whole application state.
pub struct AppState {
    /// The note collection, sorted by case-insensitive title.
    pub notes: Vec<Note>,
    /// Ids of the open notes, in the order they were opened.
    pub open_tabs: Vec<u64>,
    /// Id of the selected note, always one of the open tabs.
    pub current_tab: Option<u64>,
    /// The pending destructive action, if any.
    pub confirmation: Confirmation,
    /// Minimum age, in caller clock units, before a dirty note is autosaved.
    pub autosave_interval: u64,
    /// The next id to assign.
    pub next_id: u64,
}

impl View for AppState {
    type V = StateModel;

    open spec fn view(&self) -> StateModel {
        StateModel {
            notes: notes_view(self.notes@),
            open_tabs: self.open_tabs@,
            current_tab: self.current_tab,
            confirmation: self.confirmation,
            autosave_interval: self.autosave_interval,
            next_id: self.next_id,
        }
    }
}

proof fn lemma_notes_view_insert(v: Seq<Note>, p: int, n: Note)
    requires
        0 <= p <= v.len(),
    ensures
        notes_view(v.insert(p, n)) == notes_view(v).insert(p, n@),
{
    assert(notes_view(v.insert(p, n)) =~= notes_view(v).insert(p, n@));
}

proof fn lemma_notes_view_remove(v: Seq<Note>, p: int)
    requires
        0 <= p < v.len(),
    ensures
        notes_view(v.remove(p)) == notes_view(v).remove(p),
{
    assert(notes_view(v.remove(p)) =~= notes_view(v).remove(p));
}

impl AppState {
    /// A fresh, empty state.
    pub fn new(autosave_interval: u64) -> (s: AppState)
        ensures
            s@.wf(),
            s@.notes.len() == 0,
            s@.open_tabs.len() == 0,
            s@.current_tab is None,
            s@.confirmation == Confirmation::Idle,
            s@.autosave_interval == autosave_interval,
            s@.next_id == 0,
    {
        let s = AppState {
            notes: Vec::new(),
            open_tabs: Vec::new(),
            current_tab: None,
            confirmation: Confirmation::Idle,
            autosave_interval,
            next_id: 0,
        };
        proof {
            assert(notes_view(s.notes@) =~= Seq::<NoteModel>::empty());
        }
        s
    }

    /// The position of the note with this id, scanning from the front.
    fn find_index(&self, id: u64) -> (r: Option<usize>)
        ensures
            match r {
                Some(i) => i < self@.notes.len() && self@.notes[i as int].id == id,
                None => !has_note(self@.notes, id),
            },
    {
        let mut i: usize = 0;
        while i < self.notes.len()
            invariant
                0 <= i <= self@.notes.len(),
                self@.notes.len() == self.notes@.len(),
                forall|k: int| 0 <= k < i ==> (#[trigger] self@.notes[k]).id != id,
            decreases self@.notes.len() - i,
        {
            if self.notes[i].id == id {
                proof {
                    assert(self@.notes[i as int] == self.notes@[i as int]@);
                }
                return Some(i);
            }
            proof {
                assert(self@.notes[i as int] == self.notes@[i as int]@);
            }
            i = i + 1;
        }
        proof {
            if has_note(self@.notes, id) {
                let w = choose|w: int| 0 <= w < self@.notes.len() && self@.notes[w].id == id;
                assert(self@.notes[w].id != id);
            }
        }
        None
    }

    /// Whether a note with exactly this title, and hence this file path, is
    /// already in the collection.
    pub fn is_title_taken(&self, title: &Vec<char>) -> (r: bool)
        ensures
            r == title_taken(self@.notes, title@),
    {
        let mut i: usize = 0;
        while i < self.notes.len()
            invariant
                0 <= i <= self@.notes.len(),
                self@.notes.len() == self.notes@.len(),
                forall|k: int| 0 <= k < i ==> (#[trigger] self@.notes[k]).title != title@,
            decreases self@.notes.len() - i,
        {
            proof {
                assert(self@.notes[i as int] == self.notes@[i as int]@);
            }
            if chars_equal(&self.notes[i].title, title) {
                return true;
            }
            i = i + 1;
        }
        proof {
            if title_taken(self@.notes, title@) {
                let w = choose|w: int|
                    0 <= w < self@.notes.len() && self@.notes[w].title == title@;
                assert(self@.notes[w].title != title@);
            }
        }
        false
    }

    /// The sorted position a new title would occupy.
    fn find_insert_pos(&self, title: &Vec<char>) -> (r: usize)
        ensures
            r <= self@.notes.len(),
            r as int == insert_pos(self@.notes, title@),
    {
        let mut i: usize = 0;
        while i < self.notes.len() && title_le_chars(&self.notes[i].title, title)
            invariant
                0 <= i <= self@.notes.len(),
                self@.notes.len() == self.notes@.len(),
                forall|k: int| 0 <= k < i ==> title_le((#[trigger] self@.notes[k]).title, title@),
            decreases self@.notes.len() - i,
        {
            proof {
                assert(self@.notes[i as int] == self.notes@[i as int]@);
            }
            i = i + 1;
        }
        proof {
            if i < self.notes@.len() {
                assert(self@.notes[i as int] == self.notes@[i as int]@);
            }
            lemma_insert_pos_first(self@.notes, title@, i as int);
        }
        i
    }

    /// The title a newly created note will carry: `Note_<N>` with `N` one
    /// more than the current note count. Every character of it survives
    /// sanitization, so it is also the new file's stem.
    pub fn create_title(&self) -> (r: Vec<char>)
        requires
            self@.notes.len() < u64::MAX,
        ensures
            r@ == note_title_text((self@.notes.len() + 1) as nat),
    {
        let mut out = vec!['N', 'o', 't', 'e', '_'];
        let n = self.notes.len() as u64;
        push_decimal(&mut out, n + 1);
        out
    }

    /// Creates a note, provided the caller wrote the empty file
    /// `path_of(create_title())` successfully. With `write_ok` false, or when
    /// the synthetic title is already taken (so a second note would share the
    /// file), nothing changes and no note is returned.
    pub fn create_note(&mut self, write_ok: bool, now: u64) -> (r: Option<u64>)
        requires
            old(self)@.wf(),
            old(self)@.next_id < u64::MAX,
            old(self)@.notes.len() < u64::MAX,
        ensures
            final(self)@.wf(),
            ({
                let title = note_title_text((old(self)@.notes.len() + 1) as nat);
                if write_ok && !title_taken(old(self)@.notes, title) {
                    final(self)@ == create_spec(old(self)@, now) && r == Some(old(self)@.next_id)
                } else {
                    final(self)@ == old(self)@ && r is None
                }
            }),
    {
        if !write_ok {
            return None;
        }
        let title = self.create_title();
        if self.is_title_taken(&title) {
            return None;
        }
        let id = self.next_id;
        let pos = self.find_insert_pos(&title);
        let note = Note { id, title, content: Vec::new(), dirty: false, last_saved: now };
        proof {
            lemma_create_wf(old(self)@, now);
            lemma_notes_view_insert(self.notes@, pos as int, note);
        }
        self.notes.insert(pos, note);
        self.open_tabs.push(id);
        self.current_tab = Some(id);
        self.next_id = self.next_id + 1;
        proof {
            assert(final(self)@ =~~= create_spec(old(self)@, now));
        }
        Some(id)
    }

    /// A note found on disk at startup joins the collection: clean, with the
    /// file stem as title and the file's text as content. Returns false, and
    /// changes nothing, when a note with that title is already present.
    pub fn add_loaded_note(&mut self, title: Vec<char>, content: Vec<char>, now: u64) -> (r: bool)
        requires
            old(self)@.wf(),
            old(self)@.next_id < u64::MAX,
        ensures
            final(self)@.wf(),
            final(self)@ == load_note_spec(old(self)@, title@, content@, now),
            r == !title_taken(old(self)@.notes, title@),
    {
        if self.is_title_taken(&title) {
            return false;
        }
        let id = self.next_id;
        let pos = self.find_insert_pos(&title);
        let note = Note { id, title, content, dirty: false, last_saved: now };
        proof {
            lemma_load_wf(old(self)@, note.title@, note.content@, now);
            lemma_notes_view_insert(self.notes@, pos as int, note);
        }
        self.notes.insert(pos, note);
        self.next_id = self.next_id + 1;
        proof {
            assert(final(self)@ =~~= load_note_spec(
                old(self)@,
                note.title@,
                note.content@,
                now,
            ));
        }
        true
    }

    /// The sanitized title a rename of this note would move it to, and hence
    /// the file stem the caller must rename the file to; nothing when the
    /// rename is a no-op (unknown id, empty title, unchanged sanitized title,
    /// or a title another note already holds).
    pub fn rename_target(&self, id: u64, new_title: &Vec<char>) -> (r: Option<Vec<char>>)
        requires
            self@.wf(),
        ensures
            match r {
                Some(t) => rename_plan(self@, id, new_title@) == Some(t@),
                None => rename_plan(self@, id, new_title@) is None,
            },
    {
        let i = match self.find_index(id) {
            Some(i) => i,
            None => {
                return None;
            },
        };
        if new_title.len() == 0 {
            return None;
        }
        let san = sanitize_chars(new_title);
        proof {
            lemma_note_index(self@.notes, id);
        }
        if chars_equal(&san, &self.notes[i].title) {
            proof {
                assert(self@.notes[i as int] == self.notes@[i as int]@);
            }
            return None;
        }
        proof {
            assert(self@.notes[i as int] == self.notes@[i as int]@);
        }
        if self.is_title_taken(&san) {
            return None;
        }
        Some(san)
    }

    /// Renames a note after the caller renamed its file. `fs_ok` says whether
    /// that file rename succeeded: with false, or when the rename is a no-op
    /// (see `rename_target`), nothing changes. On success the note keeps its id
    /// and content, takes the sanitized title, becomes dirty, and moves to
    /// its sorted position; tabs and selection follow the id unchanged.
    pub fn rename_note(&mut self, id: u64, new_title: &Vec<char>, fs_ok: bool)
        requires
            old(self)@.wf(),
        ensures
            final(self)@.wf(),
            match rename_plan(old(self)@, id, new_title@) {
                Some(san) => if fs_ok {
                    final(self)@ == rename_spec(old(self)@, id, san)
                } else {
                    final(self)@ == old(self)@
                },
                None => final(self)@ == old(self)@,
            },
    {
        let san = match self.rename_target(id, new_title) {
            Some(s) => s,
            None => {
                return;
            },
        };
        if !fs_ok {
            return;
        }
        let ghost san_view = san@;
        let i = match self.find_index(id) {
            Some(i) => i,
            None => {
                proof {
                    assert(false);
                }
                return;
            },
        };
        proof {
            lemma_note_index(old(self)@.notes, id);
            lemma_rename_wf(old(self)@, id, san_view);
            lemma_notes_view_remove(self.notes@, i as int);
        }
        let mut note = self.notes.remove(i);
        note.title = san;
        note.dirty = true;
        let pos = self.find_insert_pos(&note.title);
        proof {
            lemma_notes_view_insert(self.notes@, pos as int, note);
        }
        self.notes.insert(pos, note);
        proof {
            assert(final(self)@ =~~= rename_spec(old(self)@, id, san_view));
        }
    }

    /// Removes every occurrence of an id from the open tabs, keeping order.
    fn tabs_remove(tabs: &Vec<u64>, id: u64) -> (r: Vec<u64>)
        ensures
            r@ == tabs_without(tabs@, id),
    {
        let mut out: Vec<u64> = Vec::new();
        let mut i: usize = 0;
        proof {
            assert(tabs@.subrange(0, 0) =~= Seq::<u64>::empty());
        }
        while i < tabs.len()
            invariant
                0 <= i <= tabs@.len(),
                out@ == tabs_without(tabs@.subrange(0, i as int), id),
            decreases tabs@.len() - i,
        {
            let t = tabs[i];
            proof {
                assert(tabs@.subrange(0, i + 1) =~= tabs@.subrange(0, i as int).push(
                    tabs@[i as int],
                ));
                lemma_tabs_without_push(tabs@.subrange(0, i as int), tabs@[i as int], id);
            }
            if t != id {
                out.push(t);
            }
            i = i + 1;
        }
        proof {
            assert(tabs@.subrange(0, tabs@.len() as int) =~= tabs@);
        }
        out
    }

    /// Selects the last remaining tab, or nothing, after `closed` left the
    /// tabs, if `closed` was selected.
    fn reselect(&mut self, closed: u64)
        ensures
            final(self).notes == old(self).notes,
            final(self).open_tabs == old(self).open_tabs,
            final(self).confirmation == old(self).confirmation,
            final(self).autosave_interval == old(self).autosave_interval,
            final(self).next_id == old(self).next_id,
            final(self).current_tab == if old(self).current_tab == Some(closed) {
                last_or_none(old(self).open_tabs@)
            } else {
                old(self).current_tab
            },
    {
        let is_cur = match self.current_tab {
            Some(c) => c == closed,
            None => false,
        };
        if is_cur {
            if self.open_tabs.len() == 0 {
                self.current_tab = None;
            } else {
                self.current_tab = Some(self.open_tabs[self.open_tabs.len() - 1]);
            }
        }
    }

    /// Deletes a note: it leaves the collection and the open tabs; if it was
    /// selected, the last remaining tab (or nothing) takes over; a pending
    /// confirmation that targeted it is dropped. The caller removes the file
    /// `path_of(title)`, best-effort: a missing file is not an error, and the
    /// in-memory state changes either way. An unknown id is a no-op.
    pub fn delete_note(&mut self, id: u64)
        requires
            old(self)@.wf(),
        ensures
            final(self)@.wf(),
            final(self)@ == delete_spec(old(self)@, id),
    {
        let i = match self.find_index(id) {
            Some(i) => i,
            None => {
                return;
            },
        };
        proof {
            lemma_note_index(old(self)@.notes, id);
            lemma_delete_wf(old(self)@, id);
            lemma_notes_view_remove(self.notes@, i as int);
        }
        let removed = self.notes.remove(i);
        let tabs2 = Self::tabs_remove(&self.open_tabs, id);
        self.open_tabs = tabs2;
        self.reselect(id);
        match self.confirmation {
            Confirmation::Pending { kind, target } => {
                if target == id {
                    self.confirmation = Confirmation::Idle;
                }
            },
            Confirmation::Idle => {},
        }
        proof {
            assert(final(self)@ =~~= delete_spec(old(self)@, id));
        }
    }

    /// Closes a tab unconditionally: it leaves the open tabs; if it was
    /// selected, the last remaining tab (or nothing) takes over.
    fn close_tab(&mut self, id: u64)
        requires
            old(self)@.wf(),
        ensures
            final(self)@.wf(),
            final(self)@ == close_tab_spec(old(self)@, id),
    {
        proof {
            lemma_close_wf(old(self)@, id);
        }
        let tabs2 = Self::tabs_remove(&self.open_tabs, id);
        self.open_tabs = tabs2;
        self.reselect(id);
        proof {
            assert(final(self)@ =~~= close_tab_spec(old(self)@, id));
        }
    }

    /// Whether this id is an open tab.
    pub fn tab_open(&self, id: u64) -> (r: bool)
        ensures
            r == self@.open_tabs.contains(id),
    {
        let mut i: usize = 0;
        while i < self.open_tabs.len()
            invariant
                0 <= i <= self.open_tabs@.len(),
                forall|k: int| 0 <= k < i ==> self.open_tabs@[k] != id,
            decreases self.open_tabs@.len() - i,
        {
            if self.open_tabs[i] == id {
                return true;
            }
            i = i + 1;
        }
        proof {
            if self@.open_tabs.contains(id) {
                let w = choose|w: int|
                    0 <= w < self.open_tabs@.len() && self.open_tabs@[w] == id;
                assert(self.open_tabs@[w] != id);
            }
        }
        false
    }

    /// Opens a note: appends it to the tabs unless already open, and selects
    /// it. An unknown id is a no-op.
    pub fn open_note(&mut self, id: u64)
        requires
            old(self)@.wf(),
        ensures
            final(self)@.wf(),
            final(self)@ == open_spec(old(self)@, id),
    {
        proof {
            lemma_open_wf(old(self)@, id);
        }
        match self.find_index(id) {
            Some(_i) => {
                if !self.tab_open(id) {
                    self.open_tabs.push(id);
                }
                self.current_tab = Some(id);
                proof {
                    assert(final(self)@ =~~= open_spec(old(self)@, id));
                }
            },
            None => {},
        }
    }

    /// Selects a note if it is an open tab; otherwise a no-op.
    pub fn select_note(&mut self, id: u64)
        requires
            old(self)@.wf(),
        ensures
            final(self)@.wf(),
            final(self)@ == select_spec(old(self)@, id),
    {
        proof {
            lemma_select_wf(old(self)@, id);
        }
        if self.tab_open(id) {
            self.current_tab = Some(id);
        }
        proof {
            assert(final(self)@ =~~= select_spec(old(self)@, id));
        }
    }

    /// Requests deletion of a note: sets the pending confirmation, replacing
    /// whatever was pending. An unknown id is a no-op.
    pub fn request_delete(&mut self, id: u64)
        requires
            old(self)@.wf(),
        ensures
            final(self)@.wf(),
            final(self)@ == request_delete_spec(old(self)@, id),
    {
        proof {
            lemma_request_delete_wf(old(self)@, id);
        }
        match self.find_index(id) {
            Some(_i) => {
                self.confirmation = Confirmation::Pending {
                    kind: ConfirmKind::DeleteNote,
                    target: id,
                };
                proof {
                    assert(final(self)@ =~~= request_delete_spec(old(self)@, id));
                }
            },
            None => {},
        }
    }

    /// Requests to close a tab: a dirty note asks for confirmation, replacing
    /// whatever was pending; a clean note's tab closes at once. An id that is
    /// not an open tab is a no-op.
    pub fn request_close(&mut self, id: u64)
        requires
            old(self)@.wf(),
        ensures
            final(self)@.wf(),
            final(self)@ == request_close_spec(old(self)@, id),
    {
        proof {
            lemma_request_close_wf(old(self)@, id);
        }
        if !self.tab_open(id) {
            return;
        }
        let i = match self.find_index(id) {
            Some(i) => i,
            None => {
                return;
            },
        };
        proof {
            lemma_note_index(old(self)@.notes, id);
            assert(self@.notes[i as int] == self.notes@[i as int]@);
        }
        if self.notes[i].dirty {
            self.confirmation = Confirmation::Pending {
                kind: ConfirmKind::CloseUnsavedTab,
                target: id,
            };
            proof {
                assert(final(self)@ =~~= request_close_spec(old(self)@, id));
            }
        } else {
            self.close_tab(id);
            proof {
                assert(final(self)@ =~~= request_close_spec(old(self)@, id));
            }
        }
    }

    /// Confirms the pending request and performs it: a pending deletion
    /// deletes the note (the caller removes its file, best-effort), a pending
    /// unsaved close closes the tab without saving. With nothing pending,
    /// nothing happens.
    pub fn confirm(&mut self)
        requires
            old(self)@.wf(),
        ensures
            final(self)@.wf(),
            final(self)@ == confirm_spec(old(self)@),
    {
        proof {
            lemma_confirm_wf(old(self)@);
        }
        match self.confirmation {
            Confirmation::Idle => {},
            Confirmation::Pending { kind, target } => {
                match kind {
                    ConfirmKind::DeleteNote => {
                        self.delete_note(target);
                        self.confirmation = Confirmation::Idle;
                    },
                    ConfirmKind::CloseUnsavedTab => {
                        self.close_tab(target);
                        self.confirmation = Confirmation::Idle;
                    },
                }
                proof {
                    assert(final(self)@ =~~= confirm_spec(old(self)@));
                }
            },
        }
    }

    /// Cancels the pending request: discards it, performs nothing.
    pub fn cancel(&mut self)
        requires
            old(self)@.wf(),
        ensures
            final(self)@.wf(),
            final(self)@ == cancel_spec(old(self)@),
    {
        proof {
            lemma_cancel_wf(old(self)@);
        }
        self.confirmation = Confirmation::Idle;
        proof {
            assert(final(self)@ =~~= cancel_spec(old(self)@));
        }
    }

    /// Replaces a note's content and marks it dirty. An unknown id is a
    /// no-op.
    pub fn edit_note(&mut self, id: u64, content: Vec<char>)
        requires
            old(self)@.wf(),
        ensures
            final(self)@.wf(),
            final(self)@ == edit_spec(old(self)@, id, content@),
    {
        proof {
            lemma_edit_wf(old(self)@, id, content@);
        }
        let i = match self.find_index(id) {
            Some(i) => i,
            None => {
                return;
            },
        };
        proof {
            lemma_note_index(old(self)@.notes, id);
        }
        let mut note = self.notes.remove(i);
        note.content = content;
        note.dirty = true;
        self.notes.insert(i, note);
        proof {
            assert(notes_view(self.notes@) =~= old(self)@.notes.update(
                i as int,
                self.notes@[i as int]@,
            ));
            assert(final(self)@ =~~= edit_spec(old(self)@, id, final(self)@.notes[i as int].content));
        }
    }

    /// Records a successful write of a note's content: the dirty flag clears
    /// and the save time is remembered. The caller writes the file first and
    /// calls this only on success; on failure the note stays dirty. An
    /// unknown id is a no-op.
    pub fn mark_saved(&mut self, id: u64, now: u64)
        requires
            old(self)@.wf(),
        ensures
            final(self)@.wf(),
            final(self)@ == mark_saved_spec(old(self)@, id, now),
    {
        proof {
            lemma_mark_saved_wf(old(self)@, id, now);
        }
        let i = match self.find_index(id) {
            Some(i) => i,
            None => {
                return;
            },
        };
        proof {
            lemma_note_index(old(self)@.notes, id);
        }
        let mut note = self.notes.remove(i);
        note.dirty = false;
        note.last_saved = now;
        self.notes.insert(i, note);
        proof {
            assert(notes_view(self.notes@) =~= old(self)@.notes.update(
                i as int,
                self.notes@[i as int]@,
            ));
            assert(final(self)@ =~~= mark_saved_spec(old(self)@, id, now));
        }
    }

    /// The note a user-triggered save would write: the selected note, if it
    /// is dirty. The caller writes its content to its path and then calls
    /// `mark_saved` on success.
    pub fn save_target(&self) -> (r: Option<u64>)
        requires
            self@.wf(),
        ensures
            r == save_plan(self@),
    {
        let id = match self.current_tab {
            Some(id) => id,
            None => {
                return None;
            },
        };
        let i = match self.find_index(id) {
            Some(i) => i,
            None => {
                return None;
            },
        };
        proof {
            lemma_note_index(self@.notes, id);
            assert(self@.notes[i as int] == self.notes@[i as int]@);
        }
        if self.notes[i].dirty {
            Some(id)
        } else {
            None
        }
    }

    /// The ids of the notes due for autosave at `now`: dirty, and saved at
    /// least one interval ago. The caller writes each one's content and calls
    /// `mark_saved` for those that succeeded; one failure blocks no other.
    pub fn autosave_candidates(&self, now: u64) -> (r: Vec<u64>)
        ensures
            r@ == due_ids(self@.notes, now, self@.autosave_interval),
    {
        let mut out: Vec<u64> = Vec::new();
        let mut i: usize = 0;
        proof {
            assert(self@.notes.subrange(0, 0) =~= Seq::<NoteModel>::empty());
        }
        while i < self.notes.len()
            invariant
                0 <= i <= self@.notes.len(),
                self@.notes.len() == self.notes@.len(),
                out@ == due_ids(self@.notes.subrange(0, i as int), now, self@.autosave_interval),
            decreases self@.notes.len() - i,
        {
            proof {
                assert(self@.notes[i as int] == self.notes@[i as int]@);
                assert(self@.notes.subrange(0, i + 1).drop_last() =~= self@.notes.subrange(
                    0,
                    i as int,
                ));
                assert(self@.notes.subrange(0, i + 1).last() == self@.notes[i as int]);
            }
            let due = self.notes[i].dirty && now >= self.notes[i].last_saved && now
                - self.notes[i].last_saved >= self.autosave_interval;
            proof {
                assert(due == autosave_due(self@.notes[i as int], now, self@.autosave_interval));
            }
            if due {
                out.push(self.notes[i].id);
            }
            i = i + 1;
        }
        proof {
            assert(self@.notes.subrange(0, self@.notes.len() as int) =~= self@.notes);
        }
        out
    }

    /// Word and character counts of the note at a collection position, as
    /// `(words, characters)`; `(0, 0)` for a position out of range. Words are
    /// maximal runs of non-whitespace characters.
    pub fn count_words_and_chars(&self, idx: usize) -> (r: (usize, usize))
        ensures
            idx < self@.notes.len() ==> r.0 as nat == word_count_text(
                self@.notes[idx as int].content,
            ) && r.1 == self@.notes[idx as int].content.len(),
            idx >= self@.notes.len() ==> r == (0usize, 0usize),
    {
        if idx < self.notes.len() {
            proof {
                assert(self@.notes[idx as int] == self.notes@[idx as int]@);
            }
            let words = count_words(&self.notes[idx].content);
            let chars = self.notes[idx].content.len();
            (words, chars)
        } else {
            (0, 0)
        }
    }

    /// The collection position of the note stored at this file path, if any:
    /// the first note whose `path_of(title)` equals the path.
    pub fn find_note_by_path(&self, path: &Vec<char>) -> (r: Option<usize>)
        ensures
            match r {
                Some(i) => i < self@.notes.len() && path_of(self@.notes[i as int].title) == path@
                    && forall|j: int|
                    0 <= j < i ==> path_of((#[trigger] self@.notes[j]).title) != path@,
                None => forall|j: int|
                    0 <= j < self@.notes.len() ==> path_of((#[trigger] self@.notes[j]).title)
                        != path@,
            },
    {
        let mut i: usize = 0;
        while i < self.notes.len()
            invariant
                0 <= i <= self@.notes.len(),
                self@.notes.len() == self.notes@.len(),
                forall|j: int| 0 <= j < i ==> path_of((#[trigger] self@.notes[j]).title) != path@,
            decreases self@.notes.len() - i,
        {
            proof {
                assert(self@.notes[i as int] == self.notes@[i as int]@);
            }
            let candidate = note_path(&self.notes[i].title);
            if chars_equal(&candidate, path) {
                return Some(i);
            }
            i = i + 1;
        }
        None
    }

    /// The collection positions of the notes matching a search query: the
    /// Unicode-lowercased query is a substring of the lowercased title or of
    /// the lowercased content; an empty query matches every note.
    pub fn filter_notes(&self, query: &Vec<char>) -> (r: Vec<usize>)
        ensures
            r@ == match_indices(self@.notes, query@),
    {
        let lowered_query = to_lower_chars(query);
        let mut out: Vec<usize> = Vec::new();
        let mut i: usize = 0;
        proof {
            assert(self@.notes.subrange(0, 0) =~= Seq::<NoteModel>::empty());
        }
        while i < self.notes.len()
            invariant
                0 <= i <= self@.notes.len(),
                self@.notes.len() == self.notes@.len(),
                lowered_query@ == crate::text::lower_of(query@),
                out@ == match_indices(self@.notes.subrange(0, i as int), query@),
            decreases self@.notes.len() - i,
        {
            proof {
                assert(self@.notes[i as int] == self.notes@[i as int]@);
                assert(self@.notes.subrange(0, i + 1).drop_last() =~= self@.notes.subrange(
                    0,
                    i as int,
                ));
                assert(self@.notes.subrange(0, i + 1).last() == self@.notes[i as int]);
            }
            let hit = if query.len() == 0 {
                true
            } else {
                let lowered_title = to_lower_chars(&self.notes[i].title);
                if contains_chars(&lowered_query, &lowered_title) {
                    true
                } else {
                    let lowered_content = to_lower_chars(&self.notes[i].content);
                    contains_chars(&lowered_query, &lowered_content)
                }
            };
            if hit {
                out.push(i);
            }
            i = i + 1;
        }
        proof {
            assert(self@.notes.subrange(0, self@.notes.len() as int) =~= self@.notes);
        }
        out
    }

    /// The note with this id, if present.
    pub fn note(&self, id: u64) -> (r: Option<&Note>)
        requires
            self@.wf(),
        ensures
            match r {
                Some(n) => has_note(self@.notes, id) && n@ == self@.note_of(id),
                None => !has_note(self@.notes, id),
            },
    {
        match self.find_index(id) {
            Some(i) => {
                proof {
                    lemma_note_index(self@.notes, id);
                    assert(self@.notes[i as int] == self.notes@[i as int]@);
                }
                Some(&self.notes[i])
            },
            None => None,
        }
    }

    /// The HTML-style preview of a Markdown text: each line becomes one
    /// tagged line, as classified by the block renderer.
    pub fn render_markdown_to_html(&self, markdown: &Vec<char>) -> (r: Vec<char>)
        ensures
            r@ == html_text(markdown@),
    {
        render_html(markdown)
    }
}

/// The file name a note title is stored under: the title plus `.md`.
pub fn note_path(title: &Vec<char>) -> (r: Vec<char>)
    ensures
        r@ == path_of(title@),
{
    let mut out = sub_chars(title, 0, title.len());
    out.push('.');
    out.push('m');
    out.push('d');
    proof {
        assert(out@ =~= path_of(title@));
    }
    out
}

} // verus!
