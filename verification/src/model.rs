//! Mathematical model of the note-taking state: notes sorted by
//! case-insensitive title, open tabs, current selection, and the confirmation
//! workflow. Every executable operation's contract says that the new state
//! equals one of the transition functions defined here.

use vstd::prelude::*;

use crate::text::is_substr;
use crate::text::lower_of;
use crate::text::decimal_text;
use crate::text::digit_char;
use crate::text::sanitize_char;
use crate::text::title_char;
use crate::text::lemma_title_le_total;
use crate::text::lemma_title_le_trans;
use crate::text::sanitize_text;
use crate::text::title_le;

verus! {

/// What a pending confirmation would do.
#[derive(Clone, Copy, PartialEq, Eq, Structural, Debug)]
pub enum ConfirmKind {
    /// Delete the target note and its file.
    DeleteNote,
    /// Close the target tab although its note has unsaved changes.
    CloseUnsavedTab,
}

/// The confirmation workflow: at most one pending destructive action. A new
/// request overwrites a pending one; it never queues.
#[derive(Clone, Copy, PartialEq, Eq, Structural, Debug)]
pub enum Confirmation {
    /// No destructive action is awaiting confirmation.
    Idle,
    /// A destructive action awaits confirmation for the note with id
    /// `target`.
    Pending { kind: ConfirmKind, target: u64 },
}

/// Model of one note. The backing file's name is `path_of(title)`; the id is
/// a stable identity that never changes and is never reused.
#[verifier::ext_equal]
pub struct NoteModel {
    pub id: u64,
    pub title: Seq<char>,
    pub content: Seq<char>,
    pub dirty: bool,
    pub last_saved: u64,
}

/// Model of the whole state.
#[verifier::ext_equal]
pub struct StateModel {
    pub notes: Seq<NoteModel>,
    pub open_tabs: Seq<u64>,
    pub current_tab: Option<u64>,
    pub confirmation: Confirmation,
    pub autosave_interval: u64,
    pub next_id: u64,
}

/// The file name a title is stored under: the title plus `.md`.
pub open spec fn path_of(title: Seq<char>) -> Seq<char> {
    title + seq!['.', 'm', 'd']
}

/// Some note in the collection has this id.
pub open spec fn has_note(notes: Seq<NoteModel>, id: u64) -> bool {
    exists|i: int| 0 <= i < notes.len() && notes[i].id == id
}

/// The index of the note with this id (unique when ids are unique).
pub open spec fn note_index(notes: Seq<NoteModel>, id: u64) -> int {
    choose|i: int| 0 <= i < notes.len() && notes[i].id == id
}

/// Some note in the collection already has this exact title, and hence this
/// exact file path.
pub open spec fn title_taken(notes: Seq<NoteModel>, title: Seq<char>) -> bool {
    exists|i: int| 0 <= i < notes.len() && notes[i].title == title
}

/// The collection is sorted by case-insensitive title.
pub open spec fn titles_sorted(notes: Seq<NoteModel>) -> bool {
    forall|i: int, j: int|
        0 <= i < j < notes.len() ==> title_le(notes[i].title, notes[j].title)
}

/// No two notes share an id.
pub open spec fn ids_unique(notes: Seq<NoteModel>) -> bool {
    forall|i: int, j: int| 0 <= i < j < notes.len() ==> notes[i].id != notes[j].id
}

/// No two notes share a title, so no two notes share a file path.
pub open spec fn titles_unique(notes: Seq<NoteModel>) -> bool {
    forall|i: int, j: int| 0 <= i < j < notes.len() ==> notes[i].title != notes[j].title
}

/// Every id in the collection is below the id counter.
pub open spec fn ids_below(notes: Seq<NoteModel>, bound: u64) -> bool {
    forall|i: int| 0 <= i < notes.len() ==> (#[trigger] notes[i].id) < bound
}

impl StateModel {
    /// Well-formedness: the invariant every operation preserves.
    pub open spec fn wf(self) -> bool {
        &&& titles_sorted(self.notes)
        &&& ids_unique(self.notes)
        &&& titles_unique(self.notes)
        &&& ids_below(self.notes, self.next_id)
        &&& self.open_tabs.no_duplicates()
        &&& forall|i: int|
            0 <= i < self.open_tabs.len() ==> has_note(self.notes, #[trigger] self.open_tabs[i])
        &&& match self.current_tab {
            Some(id) => self.open_tabs.contains(id),
            None => true,
        }
        &&& (self.open_tabs.len() == 0 ==> self.current_tab is None)
        &&& match self.confirmation {
            Confirmation::Pending { kind, target } => has_note(self.notes, target),
            Confirmation::Idle => true,
        }
    }

    /// The note with this id (meaningful when `has_note`).
    pub open spec fn note_of(self, id: u64) -> NoteModel {
        self.notes[note_index(self.notes, id)]
    }
}

/// Where a new title belongs in the sorted collection: right after every note
/// whose title compares no greater, so a note with an equal sort key is
/// inserted after the notes already there.
pub open spec fn insert_pos(notes: Seq<NoteModel>, title: Seq<char>) -> int
    decreases notes.len(),
{
    if notes.len() == 0 {
        0
    } else if title_le(notes[0].title, title) {
        1 + insert_pos(notes.drop_first(), title)
    } else {
        0
    }
}

pub proof fn lemma_insert_pos_bounds(notes: Seq<NoteModel>, title: Seq<char>)
    ensures
        0 <= insert_pos(notes, title) <= notes.len(),
        forall|i: int|
            0 <= i < insert_pos(notes, title) ==> title_le(#[trigger] notes[i].title, title),
        insert_pos(notes, title) < notes.len() ==> !title_le(
            notes[insert_pos(notes, title)].title,
            title,
        ),
    decreases notes.len(),
{
    if notes.len() == 0 {
    } else if title_le(notes[0].title, title) {
        let t = notes.drop_first();
        lemma_insert_pos_bounds(t, title);
        let p = insert_pos(notes, title);
        assert forall|i: int| 0 <= i < p implies title_le(#[trigger] notes[i].title, title) by {
            if i > 0 {
                assert(t[i - 1] == notes[i]);
                assert(title_le(t[i - 1].title, title));
            }
        }
        if p < notes.len() {
            assert(t[p - 1] == notes[p]);
        }
    }
}

/// The insertion position is the first index whose title compares greater.
pub proof fn lemma_insert_pos_first(notes: Seq<NoteModel>, title: Seq<char>, i: int)
    requires
        0 <= i <= notes.len(),
        forall|j: int| 0 <= j < i ==> title_le(#[trigger] notes[j].title, title),
        i == notes.len() || !title_le(notes[i].title, title),
    ensures
        insert_pos(notes, title) == i,
    decreases i,
{
    if i == 0 {
    } else {
        assert(title_le(notes[0].title, title));
        let t = notes.drop_first();
        assert(forall|j: int| 0 <= j < t.len() ==> t[j] == notes[j + 1]);
        assert forall|j: int| 0 <= j < i - 1 implies title_le(#[trigger] t[j].title, title) by {
            assert(t[j] == notes[j + 1]);
        }
        if i - 1 < t.len() {
            assert(t[i - 1] == notes[i]);
        }
        lemma_insert_pos_first(t, title, i - 1);
    }
}

/// Inserting a note at its insertion position keeps the collection sorted.
pub proof fn lemma_insert_sorted(notes: Seq<NoteModel>, n: NoteModel)
    requires
        titles_sorted(notes),
    ensures
        titles_sorted(notes.insert(insert_pos(notes, n.title), n)),
{
    let p = insert_pos(notes, n.title);
    lemma_insert_pos_bounds(notes, n.title);
    let out = notes.insert(p, n);
    assert forall|i: int, j: int| 0 <= i < j < out.len() implies title_le(
        out[i].title,
        out[j].title,
    ) by {
        if i < p && j == p {
            assert(out[i] == notes[i]);
            assert(out[j] == n);
        } else if i == p && j > p {
            assert(out[i] == n);
            assert(out[j] == notes[j - 1]);
            assert(!title_le(notes[p].title, n.title));
            lemma_title_le_total(notes[p].title, n.title);
            if j - 1 > p {
                assert(title_le(notes[p].title, notes[j - 1].title));
                lemma_title_le_trans(n.title, notes[p].title, notes[j - 1].title);
            }
        } else if i < p && j > p {
            assert(out[i] == notes[i]);
            assert(out[j] == notes[j - 1]);
            if i == j - 1 {
                assert(title_le(notes[i].title, n.title));
                assert(!title_le(notes[p].title, n.title));
                lemma_title_le_total(notes[p].title, n.title);
                lemma_title_le_trans(notes[i].title, n.title, notes[j - 1].title);
            } else {
                assert(title_le(notes[i].title, notes[j - 1].title));
            }
        } else if j < p {
            assert(out[i] == notes[i]);
            assert(out[j] == notes[j]);
        } else if i > p && j > p {
            assert(out[i] == notes[i - 1]);
            assert(out[j] == notes[j - 1]);
        }
    }
}

/// Removing a note keeps the collection sorted and its ids and titles unique.
pub proof fn lemma_remove_keeps_wf(notes: Seq<NoteModel>, i: int)
    requires
        0 <= i < notes.len(),
        titles_sorted(notes),
        ids_unique(notes),
        titles_unique(notes),
    ensures
        titles_sorted(notes.remove(i)),
        ids_unique(notes.remove(i)),
        titles_unique(notes.remove(i)),
{
    let out = notes.remove(i);
    assert forall|a: int, b: int| 0 <= a < b < out.len() implies title_le(out[a].title, out[b].title)
        && out[a].id != out[b].id && out[a].title != out[b].title by {
        let oa: int = if a < i {
            a
        } else {
            a + 1
        };
        let ob: int = if b < i {
            b
        } else {
            b + 1
        };
        assert(out[a] == notes[oa]);
        assert(out[b] == notes[ob]);
    }
}

/// Inserting a note with a fresh id and an untaken title keeps ids and titles
/// unique.
pub proof fn lemma_insert_unique(notes: Seq<NoteModel>, n: NoteModel, p: int)
    requires
        0 <= p <= notes.len(),
        ids_unique(notes),
        titles_unique(notes),
        !has_note(notes, n.id),
        !title_taken(notes, n.title),
    ensures
        ids_unique(notes.insert(p, n)),
        titles_unique(notes.insert(p, n)),
{
    let out = notes.insert(p, n);
    assert forall|a: int, b: int| 0 <= a < b < out.len() implies out[a].id != out[b].id && out[a].title
        != out[b].title by {
        if a == p {
            let ob: int = b - 1;
            assert(out[b] == notes[ob]);
        } else if b == p {
            let oa: int = if a < p {
                a
            } else {
                a + 1
            };
            assert(out[a] == notes[oa]);
        } else {
            let oa: int = if a < p {
                a
            } else {
                a - 1
            };
            let ob: int = if b < p {
                b
            } else {
                b - 1
            };
            assert(out[a] == notes[oa]);
            assert(out[b] == notes[ob]);
        }
    }
}

/// The note index is the one index carrying this id.
pub proof fn lemma_note_index(notes: Seq<NoteModel>, id: u64)
    requires
        ids_unique(notes),
        has_note(notes, id),
    ensures
        0 <= note_index(notes, id) < notes.len(),
        notes[note_index(notes, id)].id == id,
        forall|j: int| 0 <= j < notes.len() && notes[j].id == id ==> j == note_index(notes, id),
{
    let i = note_index(notes, id);
    assert(0 <= i < notes.len() && notes[i].id == id);
    assert forall|j: int| 0 <= j < notes.len() && notes[j].id == id implies j == i by {
        if j < i {
            assert(notes[j].id != notes[i].id);
        } else if j > i {
            assert(notes[i].id != notes[j].id);
        }
    }
}

/// The open tabs with every occurrence of one id removed, order kept.
pub open spec fn tabs_without(tabs: Seq<u64>, id: u64) -> Seq<u64>
    decreases tabs.len(),
{
    if tabs.len() == 0 {
        tabs
    } else {
        let rest = tabs_without(tabs.drop_first(), id);
        if tabs[0] == id {
            rest
        } else {
            seq![tabs[0]] + rest
        }
    }
}

pub proof fn lemma_tabs_without(tabs: Seq<u64>, id: u64)
    ensures
        !tabs_without(tabs, id).contains(id),
        forall|x: u64| x != id ==> tabs_without(tabs, id).contains(x) == tabs.contains(x),
        tabs.no_duplicates() ==> tabs_without(tabs, id).no_duplicates(),
        tabs_without(tabs, id).len() <= tabs.len(),
        forall|k: int|
            0 <= k < tabs_without(tabs, id).len() ==> tabs.contains(
                #[trigger] tabs_without(tabs, id)[k],
            ),
    decreases tabs.len(),
{
    if tabs.len() == 0 {
    } else {
        let t = tabs.drop_first();
        lemma_tabs_without(t, id);
        let rest = tabs_without(t, id);
        let out = tabs_without(tabs, id);
        assert forall|x: u64| x != id implies out.contains(x) == tabs.contains(x) by {
            if tabs[0] == id {
                assert(out == rest);
                if tabs.contains(x) {
                    let w = choose|w: int| 0 <= w < tabs.len() && tabs[w] == x;
                    assert(w != 0);
                    assert(t[w - 1] == x);
                    assert(t.contains(x));
                }
                if t.contains(x) {
                    let w = choose|w: int| 0 <= w < t.len() && t[w] == x;
                    assert(tabs[w + 1] == x);
                }
            } else {
                assert(out == seq![tabs[0]] + rest);
                if out.contains(x) {
                    let w = choose|w: int| 0 <= w < out.len() && out[w] == x;
                    if w == 0 {
                        assert(tabs[0] == x);
                    } else {
                        assert(rest[w - 1] == x);
                        assert(t.contains(x));
                        let v = choose|v: int| 0 <= v < t.len() && t[v] == x;
                        assert(tabs[v + 1] == x);
                    }
                }
                if tabs.contains(x) {
                    let w = choose|w: int| 0 <= w < tabs.len() && tabs[w] == x;
                    if w == 0 {
                        assert(out[0] == x);
                    } else {
                        assert(t[w - 1] == x);
                        assert(t.contains(x));
                        assert(rest.contains(x));
                        let v = choose|v: int| 0 <= v < rest.len() && rest[v] == x;
                        assert(out[v + 1] == x);
                    }
                }
            }
        }
        if tabs[0] != id {
            assert(!out.contains(id)) by {
                if out.contains(id) {
                    let w = choose|w: int| 0 <= w < out.len() && out[w] == id;
                    if w == 0 {
                    } else {
                        assert(rest[w - 1] == id);
                        assert(rest.contains(id));
                    }
                }
            }
        }
        assert forall|k: int| 0 <= k < out.len() implies tabs.contains(#[trigger] out[k]) by {
            if tabs[0] == id {
                assert(t.contains(out[k]));
                let v = choose|v: int| 0 <= v < t.len() && t[v] == out[k];
                assert(tabs[v + 1] == out[k]);
            } else {
                if k == 0 {
                    assert(tabs[0] == out[0]);
                } else {
                    assert(rest[k - 1] == out[k]);
                    assert(t.contains(out[k]));
                    let v = choose|v: int| 0 <= v < t.len() && t[v] == out[k];
                    assert(tabs[v + 1] == out[k]);
                }
            }
        }
        if tabs.no_duplicates() {
            assert(t.no_duplicates()) by {
                assert forall|a: int, b: int| 0 <= a < b < t.len() implies t[a] != t[b] by {
                    assert(tabs[a + 1] != tabs[b + 1]);
                }
            }
            assert(rest.no_duplicates());
            if tabs[0] != id {
                assert(!t.contains(tabs[0])) by {
                    if t.contains(tabs[0]) {
                        let w = choose|w: int| 0 <= w < t.len() && t[w] == tabs[0];
                        assert(tabs[w + 1] == tabs[0]);
                    }
                }
                assert(!rest.contains(tabs[0]));
                assert(out.no_duplicates()) by {
                    assert forall|a: int, b: int| 0 <= a < b < out.len() implies out[a] != out[b] by {
                        if a == 0 {
                            assert(out[b] == rest[b - 1]);
                            assert(rest.contains(rest[b - 1]));
                        } else {
                            assert(out[a] == rest[a - 1]);
                            assert(out[b] == rest[b - 1]);
                        }
                    }
                }
            }
        }
    }
}

/// Appending one element to the scanned prefix extends `tabs_without` by the
/// element, unless the element is the removed id.
pub proof fn lemma_tabs_without_push(tabs: Seq<u64>, x: u64, id: u64)
    ensures
        tabs_without(tabs.push(x), id) == if x == id {
            tabs_without(tabs, id)
        } else {
            tabs_without(tabs, id).push(x)
        },
    decreases tabs.len(),
{
    let s = tabs.push(x);
    if tabs.len() == 0 {
        assert(s.len() == 1);
        assert(s[0] == x);
        assert(s.drop_first() =~= Seq::<u64>::empty());
        assert(tabs_without(Seq::<u64>::empty(), id) == Seq::<u64>::empty());
        assert(tabs_without(tabs, id) == tabs);
        assert(tabs =~= Seq::<u64>::empty());
        if x == id {
            assert(tabs_without(s, id) =~= tabs_without(tabs, id));
        } else {
            assert(tabs_without(s, id) =~= seq![x]);
            assert(tabs_without(tabs, id).push(x) =~= seq![x]);
        }
    } else {
        assert(s[0] == tabs[0]);
        assert(s.drop_first() =~= tabs.drop_first().push(x));
        lemma_tabs_without_push(tabs.drop_first(), x, id);
        if x == id {
            assert(tabs_without(s, id) =~= tabs_without(tabs, id));
        } else {
            if tabs[0] == id {
                assert(tabs_without(s, id) =~= tabs_without(tabs, id).push(x));
            } else {
                assert(tabs_without(s, id) =~= tabs_without(tabs, id).push(x));
            }
        }
    }
}

/// The last tab, or nothing if no tab is open.
pub open spec fn last_or_none(tabs: Seq<u64>) -> Option<u64> {
    if tabs.len() == 0 {
        None
    } else {
        Some(tabs.last())
    }
}

/// The synthetic title of a note created when the collection holds `n - 1`
/// notes: `Note_<n>`. Every character of it survives sanitization.
pub open spec fn note_title_text(n: nat) -> Seq<char> {
    seq!['N', 'o', 't', 'e', '_'] + decimal_text(n)
}

/// Every character of a decimal representation is a digit.
pub proof fn lemma_decimal_chars(n: nat)
    ensures
        forall|i: int|
            0 <= i < decimal_text(n).len() ==> title_char(#[trigger] decimal_text(n)[i]),
    decreases n,
{
    assert forall|d: int| 0 <= d < 10 implies title_char(digit_char(d)) by {
        assert(digit_char(d) as int == 48 + d);
    }
    if n < 10 {
        assert(decimal_text(n) == seq![digit_char(n as int)]);
        assert(decimal_text(n)[0] == digit_char(n as int));
        assert(title_char(decimal_text(n)[0]));
    } else {
        lemma_decimal_chars(n / 10);
        let rest = decimal_text(n / 10);
        assert(decimal_text(n) == rest.push(digit_char((n % 10) as int)));
        assert forall|i: int| 0 <= i < decimal_text(n).len() implies title_char(
            #[trigger] decimal_text(n)[i],
        ) by {
            if i < rest.len() {
                assert(decimal_text(n)[i] == rest[i]);
            } else {
                assert(decimal_text(n)[i] == digit_char((n % 10) as int));
            }
        }
    }
}

/// The synthetic title of a created note is its own sanitized form: every
/// character of `Note_<N>` is a letter, a digit or the underscore, so the
/// title is also the created file's stem unchanged.
pub proof fn lemma_create_title_sanitized(n: nat)
    ensures
        sanitize_text(note_title_text(n)) == note_title_text(n),
{
    let t = note_title_text(n);
    lemma_decimal_chars(n);
    assert forall|i: int| 0 <= i < t.len() implies sanitize_char(#[trigger] t[i]) == t[i] by {
        if i < 5 {
            assert(title_char(t[i]));
        } else {
            assert(t[i] == decimal_text(n)[i - 5]);
            assert(title_char(t[i]));
        }
    }
    assert(sanitize_text(t) =~= t);
}

/// A note discovered on disk at startup joins the collection at its sorted
/// position, clean, with a fresh id. A title that is already present is
/// refused: one note per file.
pub open spec fn load_note_spec(m: StateModel, title: Seq<char>, content: Seq<char>, now: u64) -> StateModel {
    if title_taken(m.notes, title) {
        m
    } else {
        let n = NoteModel { id: m.next_id, title, content, dirty: false, last_saved: now };
        StateModel {
            notes: m.notes.insert(insert_pos(m.notes, title), n),
            next_id: (m.next_id + 1) as u64,
            ..m
        }
    }
}

/// A freshly created note: synthetic title, empty content, clean; it is
/// opened as a tab and selected.
pub open spec fn create_spec(m: StateModel, now: u64) -> StateModel {
    let title = note_title_text(m.notes.len() + 1);
    let id = m.next_id;
    let n = NoteModel { id, title, content: Seq::empty(), dirty: false, last_saved: now };
    StateModel {
        notes: m.notes.insert(insert_pos(m.notes, title), n),
        open_tabs: m.open_tabs.push(id),
        current_tab: Some(id),
        next_id: (m.next_id + 1) as u64,
        ..m
    }
}

/// The sanitized title a rename would move the note to, or nothing when the
/// rename is a no-op: an unknown id, an empty new title, a sanitized title
/// equal to the current one, or a title (and hence a file path) another note
/// already holds.
pub open spec fn rename_plan(m: StateModel, id: u64, new_title: Seq<char>) -> Option<Seq<char>> {
    if !has_note(m.notes, id) {
        None
    } else if new_title.len() == 0 {
        None
    } else {
        let san = sanitize_text(new_title);
        if m.note_of(id).title == san {
            None
        } else if title_taken(m.notes, san) {
            None
        } else {
            Some(san)
        }
    }
}

/// The state after a successful rename: the note keeps its id and content,
/// takes the sanitized title, becomes dirty, and moves to its new sorted
/// position. Tabs and selection follow the id and need no change.
pub open spec fn rename_spec(m: StateModel, id: u64, san: Seq<char>) -> StateModel {
    let i = note_index(m.notes, id);
    let n = m.notes[i];
    let n2 = NoteModel { title: san, dirty: true, ..n };
    let rest = m.notes.remove(i);
    StateModel { notes: rest.insert(insert_pos(rest, san), n2), ..m }
}

/// The state after a note is deleted: it leaves the collection and the open
/// tabs; if it was selected, the last remaining tab (or nothing) takes over;
/// a pending confirmation that targeted it is dropped.
pub open spec fn delete_spec(m: StateModel, id: u64) -> StateModel {
    if !has_note(m.notes, id) {
        m
    } else {
        let i = note_index(m.notes, id);
        let tabs2 = tabs_without(m.open_tabs, id);
        StateModel {
            notes: m.notes.remove(i),
            open_tabs: tabs2,
            current_tab: if m.current_tab == Some(id) {
                last_or_none(tabs2)
            } else {
                m.current_tab
            },
            confirmation: match m.confirmation {
                Confirmation::Pending { kind, target } => if target == id {
                    Confirmation::Idle
                } else {
                    m.confirmation
                },
                Confirmation::Idle => Confirmation::Idle,
            },
            ..m
        }
    }
}

/// The state after a tab is closed: it leaves the open tabs; if it was
/// selected, the last remaining tab (or nothing) takes over.
pub open spec fn close_tab_spec(m: StateModel, id: u64) -> StateModel {
    let tabs2 = tabs_without(m.open_tabs, id);
    StateModel {
        open_tabs: tabs2,
        current_tab: if m.current_tab == Some(id) {
            last_or_none(tabs2)
        } else {
            m.current_tab
        },
        ..m
    }
}

/// Opening a note: appended to the tabs unless already open, and selected.
/// An unknown id is a no-op.
pub open spec fn open_spec(m: StateModel, id: u64) -> StateModel {
    if !has_note(m.notes, id) {
        m
    } else {
        StateModel {
            open_tabs: if m.open_tabs.contains(id) {
                m.open_tabs
            } else {
                m.open_tabs.push(id)
            },
            current_tab: Some(id),
            ..m
        }
    }
}

/// Selecting a note: only if it is an open tab; otherwise a no-op.
pub open spec fn select_spec(m: StateModel, id: u64) -> StateModel {
    if m.open_tabs.contains(id) {
        StateModel { current_tab: Some(id), ..m }
    } else {
        m
    }
}

/// Requesting deletion: a pending request for this note replaces whatever was
/// pending. An unknown id is a no-op.
pub open spec fn request_delete_spec(m: StateModel, id: u64) -> StateModel {
    if has_note(m.notes, id) {
        StateModel {
            confirmation: Confirmation::Pending { kind: ConfirmKind::DeleteNote, target: id },
            ..m
        }
    } else {
        m
    }
}

/// Requesting to close a tab: a dirty note asks for confirmation, replacing
/// whatever was pending; a clean note's tab closes at once. An id that is not
/// an open tab is a no-op.
pub open spec fn request_close_spec(m: StateModel, id: u64) -> StateModel {
    if !m.open_tabs.contains(id) || !has_note(m.notes, id) {
        m
    } else if m.note_of(id).dirty {
        StateModel {
            confirmation: Confirmation::Pending { kind: ConfirmKind::CloseUnsavedTab, target: id },
            ..m
        }
    } else {
        close_tab_spec(m, id)
    }
}

/// Confirming the pending request performs it and returns to idle; with
/// nothing pending, nothing happens.
pub open spec fn confirm_spec(m: StateModel) -> StateModel {
    match m.confirmation {
        Confirmation::Idle => m,
        Confirmation::Pending { kind, target } => match kind {
            ConfirmKind::DeleteNote => StateModel {
                confirmation: Confirmation::Idle,
                ..delete_spec(m, target)
            },
            ConfirmKind::CloseUnsavedTab => StateModel {
                confirmation: Confirmation::Idle,
                ..close_tab_spec(m, target)
            },
        },
    }
}

/// Cancelling discards the pending request and changes nothing else.
pub open spec fn cancel_spec(m: StateModel) -> StateModel {
    StateModel { confirmation: Confirmation::Idle, ..m }
}

/// An edit replaces the note's content and marks it dirty. An unknown id is a
/// no-op.
pub open spec fn edit_spec(m: StateModel, id: u64, content: Seq<char>) -> StateModel {
    if !has_note(m.notes, id) {
        m
    } else {
        let i = note_index(m.notes, id);
        let n = m.notes[i];
        StateModel { notes: m.notes.update(i, NoteModel { content, dirty: true, ..n }), ..m }
    }
}

/// A successful write clears the note's dirty flag and records the time. An
/// unknown id is a no-op.
pub open spec fn mark_saved_spec(m: StateModel, id: u64, now: u64) -> StateModel {
    if !has_note(m.notes, id) {
        m
    } else {
        let i = note_index(m.notes, id);
        let n = m.notes[i];
        StateModel {
            notes: m.notes.update(i, NoteModel { dirty: false, last_saved: now, ..n }),
            ..m
        }
    }
}

/// A note is due for autosave: dirty, and at least the interval has elapsed
/// since its last successful save.
pub open spec fn autosave_due(n: NoteModel, now: u64, interval: u64) -> bool {
    n.dirty && now - n.last_saved >= interval
}

/// The ids of the notes due for autosave, in collection order.
pub open spec fn due_ids(notes: Seq<NoteModel>, now: u64, interval: u64) -> Seq<u64>
    decreases notes.len(),
{
    if notes.len() == 0 {
        Seq::empty()
    } else {
        let rest = due_ids(notes.drop_last(), now, interval);
        if autosave_due(notes.last(), now, interval) {
            rest.push(notes.last().id)
        } else {
            rest
        }
    }
}

/// The note the user-triggered save would write: the selected note, if it
/// has unsaved changes.
pub open spec fn save_plan(m: StateModel) -> Option<u64> {
    match m.current_tab {
        Some(id) => if has_note(m.notes, id) && m.note_of(id).dirty {
            Some(id)
        } else {
            None
        },
        None => None,
    }
}

/// The search filter: a note matches a query when the Unicode-lowercased
/// query is a substring of the lowercased title or of the lowercased content.
/// An empty query matches every note.
pub open spec fn note_matches(n: NoteModel, q: Seq<char>) -> bool {
    q.len() == 0 || is_substr(lower_of(q), lower_of(n.title)) || is_substr(
        lower_of(q),
        lower_of(n.content),
    )
}

/// The positions of the notes matching a query, in collection order.
pub open spec fn match_indices(notes: Seq<NoteModel>, q: Seq<char>) -> Seq<usize>
    decreases notes.len(),
{
    if notes.len() == 0 {
        Seq::empty()
    } else {
        let rest = match_indices(notes.drop_last(), q);
        if note_matches(notes.last(), q) {
            rest.push((notes.len() - 1) as usize)
        } else {
            rest
        }
    }
}

/// Inserting a note makes its id present and keeps every other id's presence.
pub proof fn lemma_insert_has(notes: Seq<NoteModel>, n: NoteModel, p: int)
    requires
        0 <= p <= notes.len(),
    ensures
        forall|x: u64|
            #[trigger] has_note(notes.insert(p, n), x) == (has_note(notes, x) || n.id == x),
{
    let out = notes.insert(p, n);
    assert forall|x: u64| #[trigger] has_note(out, x) == (has_note(notes, x) || n.id == x) by {
        if has_note(notes, x) {
            let i = choose|i: int| 0 <= i < notes.len() && notes[i].id == x;
            let oi: int = if i < p {
                i
            } else {
                i + 1
            };
            assert(out[oi].id == x);
        }
        if n.id == x {
            assert(out[p].id == x);
        }
        if has_note(out, x) && n.id != x {
            let i = choose|i: int| 0 <= i < out.len() && out[i].id == x;
            assert(i != p);
            let oi: int = if i < p {
                i
            } else {
                i - 1
            };
            assert(notes[oi].id == x);
        }
    }
}

/// Inserting a note with an id below the bound keeps all ids below it.
pub proof fn lemma_insert_below(notes: Seq<NoteModel>, n: NoteModel, p: int, b: u64)
    requires
        0 <= p <= notes.len(),
        ids_below(notes, b),
        n.id < b,
    ensures
        ids_below(notes.insert(p, n), b),
{
    let out = notes.insert(p, n);
    assert forall|i: int| 0 <= i < out.len() implies (#[trigger] out[i].id) < b by {
        if i < p {
            assert(out[i] == notes[i]);
        } else if i == p {
            assert(out[i] == n);
        } else {
            assert(out[i] == notes[i - 1]);
        }
    }
}

/// Removing one note removes exactly its id.
pub proof fn lemma_remove_has(notes: Seq<NoteModel>, i: int)
    requires
        ids_unique(notes),
        0 <= i < notes.len(),
    ensures
        forall|x: u64|
            #[trigger] has_note(notes.remove(i), x) == (has_note(notes, x) && x != notes[i].id),
{
    let out = notes.remove(i);
    assert forall|x: u64| #[trigger] has_note(out, x) == (has_note(notes, x) && x != notes[i].id) by {
        if has_note(out, x) {
            let j = choose|j: int| 0 <= j < out.len() && out[j].id == x;
            let oj: int = if j < i {
                j
            } else {
                j + 1
            };
            assert(notes[oj].id == x);
            if x == notes[i].id {
                assert(oj != i);
                if oj < i {
                    assert(notes[oj].id != notes[i].id);
                } else {
                    assert(notes[i].id != notes[oj].id);
                }
            }
        }
        if has_note(notes, x) && x != notes[i].id {
            let j = choose|j: int| 0 <= j < notes.len() && notes[j].id == x;
            assert(j != i);
            let oj: int = if j < i {
                j
            } else {
                j - 1
            };
            assert(out[oj].id == x);
        }
    }
}

/// Removing a note keeps all ids below the bound.
pub proof fn lemma_remove_below(notes: Seq<NoteModel>, i: int, b: u64)
    requires
        0 <= i < notes.len(),
        ids_below(notes, b),
    ensures
        ids_below(notes.remove(i), b),
{
    let out = notes.remove(i);
    assert forall|k: int| 0 <= k < out.len() implies (#[trigger] out[k].id) < b by {
        let ok: int = if k < i {
            k
        } else {
            k + 1
        };
        assert(out[k] == notes[ok]);
    }
}

/// Removing one note keeps every other title's presence.
pub proof fn lemma_remove_titles(notes: Seq<NoteModel>, i: int, title: Seq<char>)
    requires
        0 <= i < notes.len(),
        !title_taken(notes, title),
    ensures
        !title_taken(notes.remove(i), title),
{
    let out = notes.remove(i);
    if title_taken(out, title) {
        let j = choose|j: int| 0 <= j < out.len() && out[j].title == title;
        let oj: int = if j < i {
            j
        } else {
            j + 1
        };
        assert(notes[oj].title == title);
    }
}

/// Replacing a note by one with the same id and title disturbs no ordering,
/// uniqueness or presence fact.
pub proof fn lemma_update_meta(notes: Seq<NoteModel>, i: int, n2: NoteModel, b: u64)
    requires
        0 <= i < notes.len(),
        n2.id == notes[i].id,
        n2.title == notes[i].title,
    ensures
        titles_sorted(notes) ==> titles_sorted(notes.update(i, n2)),
        ids_unique(notes) ==> ids_unique(notes.update(i, n2)),
        titles_unique(notes) ==> titles_unique(notes.update(i, n2)),
        forall|x: u64| #[trigger] has_note(notes.update(i, n2), x) == has_note(notes, x),
        ids_below(notes, b) ==> ids_below(notes.update(i, n2), b),
{
    let out = notes.update(i, n2);
    assert(forall|k: int| 0 <= k < out.len() ==> (#[trigger] out[k]).id == notes[k].id
        && out[k].title == notes[k].title);
    assert forall|x: u64| #[trigger] has_note(out, x) == has_note(notes, x) by {
        if has_note(out, x) {
            let j = choose|j: int| 0 <= j < out.len() && out[j].id == x;
            assert(notes[j].id == x);
        }
        if has_note(notes, x) {
            let j = choose|j: int| 0 <= j < notes.len() && notes[j].id == x;
            assert(out[j].id == x);
        }
    }
}

/// Discovering a note at startup preserves the invariant.
pub proof fn lemma_load_wf(m: StateModel, title: Seq<char>, content: Seq<char>, now: u64)
    requires
        m.wf(),
        m.next_id < u64::MAX,
    ensures
        load_note_spec(m, title, content, now).wf(),
{
    if !title_taken(m.notes, title) {
        let n = NoteModel { id: m.next_id, title, content, dirty: false, last_saved: now };
        let p = insert_pos(m.notes, title);
        lemma_insert_pos_bounds(m.notes, title);
        lemma_insert_sorted(m.notes, n);
        assert(!has_note(m.notes, m.next_id));
        lemma_insert_unique(m.notes, n, p);
        lemma_insert_below(m.notes, n, p, (m.next_id + 1) as u64);
        lemma_insert_has(m.notes, n, p);
        let m2 = load_note_spec(m, title, content, now);
        assert(forall|i: int|
            0 <= i < m2.open_tabs.len() ==> has_note(m2.notes, #[trigger] m2.open_tabs[i]));
    }
}

/// Creating a note preserves the invariant, provided its synthetic title is
/// not already taken.
pub proof fn lemma_create_wf(m: StateModel, now: u64)
    requires
        m.wf(),
        m.next_id < u64::MAX,
        !title_taken(m.notes, note_title_text(m.notes.len() + 1)),
    ensures
        create_spec(m, now).wf(),
{
    let title = note_title_text(m.notes.len() + 1);
    let id = m.next_id;
    let n = NoteModel { id, title, content: Seq::empty(), dirty: false, last_saved: now };
    let p = insert_pos(m.notes, title);
    lemma_insert_pos_bounds(m.notes, title);
    lemma_insert_sorted(m.notes, n);
    assert(!has_note(m.notes, id));
    lemma_insert_unique(m.notes, n, p);
    lemma_insert_below(m.notes, n, p, (m.next_id + 1) as u64);
    lemma_insert_has(m.notes, n, p);
    let m2 = create_spec(m, now);
    assert(!m.open_tabs.contains(id));
    assert(m2.open_tabs.no_duplicates()) by {
        assert forall|a: int, c: int| 0 <= a < c < m2.open_tabs.len() implies m2.open_tabs[a]
            != m2.open_tabs[c] by {
            if c == m2.open_tabs.len() - 1 {
                assert(m2.open_tabs[a] == m.open_tabs[a]);
                assert(m.open_tabs.contains(m.open_tabs[a]));
            }
        }
    }
    assert forall|i: int| 0 <= i < m2.open_tabs.len() implies has_note(
        m2.notes,
        #[trigger] m2.open_tabs[i],
    ) by {
        if i < m.open_tabs.len() {
            assert(m2.open_tabs[i] == m.open_tabs[i]);
            assert(has_note(m.notes, m.open_tabs[i]));
        } else {
            assert(m2.open_tabs[i] == id);
        }
    }
    assert(m2.open_tabs.last() == id);
    assert(m2.open_tabs.contains(id));
}

/// Renaming to a fresh sanitized title preserves the invariant and keeps the
/// same set of note ids.
pub proof fn lemma_rename_wf(m: StateModel, id: u64, san: Seq<char>)
    requires
        m.wf(),
        has_note(m.notes, id),
        !title_taken(m.notes, san),
    ensures
        rename_spec(m, id, san).wf(),
        forall|x: u64|
            #[trigger] has_note(rename_spec(m, id, san).notes, x) == has_note(m.notes, x),
{
    let i = note_index(m.notes, id);
    lemma_note_index(m.notes, id);
    let n = m.notes[i];
    let n2 = NoteModel { title: san, dirty: true, ..n };
    let rest = m.notes.remove(i);
    let p = insert_pos(rest, san);
    lemma_remove_keeps_wf(m.notes, i);
    lemma_remove_has(m.notes, i);
    lemma_remove_below(m.notes, i, m.next_id);
    lemma_remove_titles(m.notes, i, san);
    lemma_insert_pos_bounds(rest, san);
    lemma_insert_sorted(rest, n2);
    assert(!has_note(rest, id));
    lemma_insert_unique(rest, n2, p);
    lemma_insert_below(rest, n2, p, m.next_id);
    lemma_insert_has(rest, n2, p);
    let m2 = rename_spec(m, id, san);
    assert forall|x: u64| #[trigger] has_note(m2.notes, x) == has_note(m.notes, x) by {
        assert(has_note(m2.notes, x) == (has_note(rest, x) || x == id));
    }
    assert(forall|k: int|
        0 <= k < m2.open_tabs.len() ==> has_note(m2.notes, #[trigger] m2.open_tabs[k]));
}

/// Deleting a note preserves the invariant.
pub proof fn lemma_delete_wf(m: StateModel, id: u64)
    requires
        m.wf(),
    ensures
        delete_spec(m, id).wf(),
{
    if has_note(m.notes, id) {
        let i = note_index(m.notes, id);
        lemma_note_index(m.notes, id);
        lemma_remove_keeps_wf(m.notes, i);
        lemma_remove_has(m.notes, i);
        lemma_remove_below(m.notes, i, m.next_id);
        lemma_tabs_without(m.open_tabs, id);
        let m2 = delete_spec(m, id);
        let tabs2 = m2.open_tabs;
        assert forall|k: int| 0 <= k < tabs2.len() implies has_note(
            m2.notes,
            #[trigger] tabs2[k],
        ) by {
            assert(tabs2.contains(tabs2[k]));
            assert(tabs2[k] != id);
            assert(m.open_tabs.contains(tabs2[k]));
            let w = choose|w: int| 0 <= w < m.open_tabs.len() && m.open_tabs[w] == tabs2[k];
            assert(has_note(m.notes, m.open_tabs[w]));
        }
        match m2.current_tab {
            Some(cur) => {
                if m.current_tab == Some(id) {
                    assert(tabs2.len() > 0);
                    assert(cur == tabs2.last());
                    assert(tabs2.contains(cur));
                } else {
                    assert(m.current_tab == Some(cur));
                    assert(cur != id);
                    assert(m.open_tabs.contains(cur));
                    assert(tabs2.contains(cur));
                }
            },
            None => {},
        }
    }
}

/// Closing a tab preserves the invariant.
pub proof fn lemma_close_wf(m: StateModel, id: u64)
    requires
        m.wf(),
    ensures
        close_tab_spec(m, id).wf(),
{
    lemma_tabs_without(m.open_tabs, id);
    let m2 = close_tab_spec(m, id);
    let tabs2 = m2.open_tabs;
    assert forall|k: int| 0 <= k < tabs2.len() implies has_note(m2.notes, #[trigger] tabs2[k]) by {
        assert(tabs2.contains(tabs2[k]));
        assert(m.open_tabs.contains(tabs2[k]));
        let w = choose|w: int| 0 <= w < m.open_tabs.len() && m.open_tabs[w] == tabs2[k];
        assert(has_note(m.notes, m.open_tabs[w]));
    }
    match m2.current_tab {
        Some(cur) => {
            if m.current_tab == Some(id) {
                assert(tabs2.len() > 0);
                assert(cur == tabs2.last());
                assert(tabs2.contains(cur));
            } else {
                assert(m.current_tab == Some(cur));
                assert(cur != id);
                assert(m.open_tabs.contains(cur));
                assert(tabs2.contains(cur));
            }
        },
        None => {},
    }
}

/// Opening a note preserves the invariant.
pub proof fn lemma_open_wf(m: StateModel, id: u64)
    requires
        m.wf(),
    ensures
        open_spec(m, id).wf(),
{
    if has_note(m.notes, id) {
        let m2 = open_spec(m, id);
        if !m.open_tabs.contains(id) {
            assert(m2.open_tabs.no_duplicates()) by {
                assert forall|a: int, c: int| 0 <= a < c < m2.open_tabs.len() implies m2.open_tabs[a]
                    != m2.open_tabs[c] by {
                    if c == m2.open_tabs.len() - 1 {
                        assert(m2.open_tabs[a] == m.open_tabs[a]);
                        assert(m.open_tabs.contains(m.open_tabs[a]));
                    }
                }
            }
            assert(m2.open_tabs.last() == id);
        }
        assert(m2.open_tabs.contains(id)) by {
            if m.open_tabs.contains(id) {
            } else {
                assert(m2.open_tabs.last() == id);
            }
        }
        assert forall|i: int| 0 <= i < m2.open_tabs.len() implies has_note(
            m2.notes,
            #[trigger] m2.open_tabs[i],
        ) by {
            if i < m.open_tabs.len() {
                assert(m2.open_tabs[i] == m.open_tabs[i]);
                assert(has_note(m.notes, m.open_tabs[i]));
            } else {
                assert(m2.open_tabs[i] == id);
            }
        }
    }
}

/// Selecting a tab preserves the invariant.
pub proof fn lemma_select_wf(m: StateModel, id: u64)
    requires
        m.wf(),
    ensures
        select_spec(m, id).wf(),
{
}

/// Requesting a deletion preserves the invariant.
pub proof fn lemma_request_delete_wf(m: StateModel, id: u64)
    requires
        m.wf(),
    ensures
        request_delete_spec(m, id).wf(),
{
}

/// Requesting to close a tab preserves the invariant.
pub proof fn lemma_request_close_wf(m: StateModel, id: u64)
    requires
        m.wf(),
    ensures
        request_close_spec(m, id).wf(),
{
    if m.open_tabs.contains(id) && has_note(m.notes, id) && !m.note_of(id).dirty {
        lemma_close_wf(m, id);
    }
}

/// Confirming preserves the invariant.
pub proof fn lemma_confirm_wf(m: StateModel)
    requires
        m.wf(),
    ensures
        confirm_spec(m).wf(),
{
    match m.confirmation {
        Confirmation::Idle => {},
        Confirmation::Pending { kind, target } => match kind {
            ConfirmKind::DeleteNote => {
                lemma_delete_wf(m, target);
            },
            ConfirmKind::CloseUnsavedTab => {
                lemma_close_wf(m, target);
            },
        },
    }
}

/// Cancelling preserves the invariant.
pub proof fn lemma_cancel_wf(m: StateModel)
    requires
        m.wf(),
    ensures
        cancel_spec(m).wf(),
{
}

/// Editing preserves the invariant.
pub proof fn lemma_edit_wf(m: StateModel, id: u64, content: Seq<char>)
    requires
        m.wf(),
    ensures
        edit_spec(m, id, content).wf(),
{
    if has_note(m.notes, id) {
        let i = note_index(m.notes, id);
        lemma_note_index(m.notes, id);
        let n = m.notes[i];
        lemma_update_meta(m.notes, i, NoteModel { content, dirty: true, ..n }, m.next_id);
    }
}

/// Recording a successful save preserves the invariant.
pub proof fn lemma_mark_saved_wf(m: StateModel, id: u64, now: u64)
    requires
        m.wf(),
    ensures
        mark_saved_spec(m, id, now).wf(),
{
    if has_note(m.notes, id) {
        let i = note_index(m.notes, id);
        lemma_note_index(m.notes, id);
        let n = m.notes[i];
        lemma_update_meta(m.notes, i, NoteModel { dirty: false, last_saved: now, ..n }, m.next_id);
    }
}

} // verus!
