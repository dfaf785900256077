//! Browsing the notes in a terminal: which notes the list shows (searched by
//! lower-cased title or tag, sorted by id, title or update time, optionally
//! reversed), and how the browser's state and the action it asks for follow
//! from each key. Drawing, reading keys and carrying out the actions are
//! left to the caller.

use vstd::prelude::*;
use crate::editing::{skip_white_exec, trim_chars, trim_end_exec};
use crate::notes::{metas_model, tags_model, MetaModel, NoteMeta};
use crate::pageviews::chars_of;

verus! {

/// What `str::to_lowercase` gives for a text (Unicode's default lower-case
/// mapping, the same on every machine).
pub uninterp spec fn lowercase(s: Seq<char>) -> Seq<char>;

/// Calls `str::to_lowercase`. Claimed: its result is `lowercase` of the text,
/// a function of the text alone.
#[verifier::external_body]
fn to_lowercase(s: &str) -> (r: String)
    ensures
        r@ == lowercase(s@),
{
    s.to_lowercase()
}

/// `needle` occurs in `hay` as a run of consecutive characters.
pub open spec fn contains_text(hay: Seq<char>, needle: Seq<char>) -> bool {
    exists|i: int| 0 <= i && i + needle.len() <= hay.len() && #[trigger] hay.subrange(i, i + needle.len()) == needle
}

/// Whether `needle` occurs in `hay`.
fn contains_exec(hay: &Vec<char>, needle: &Vec<char>) -> (r: bool)
    ensures
        r == contains_text(hay@, needle@),
{
    if needle.len() == 0 {
        proof {
            assert(hay@.subrange(0, 0int + needle@.len()) =~= needle@);
        }
        return true;
    }
    if needle.len() > hay.len() {
        return false;
    }
    let last = hay.len() - needle.len();
    assert(hay@.len() == hay.len());
    let mut i: usize = 0;
    while i <= last
        invariant
            0 < needle@.len() <= hay@.len(),
            hay@.len() <= usize::MAX,
            last == hay@.len() - needle@.len(),
            i <= last + 1,
            forall|k: int| 0 <= k < i ==> #[trigger] hay@.subrange(k, k + needle@.len()) != needle@,
        decreases last + 1 - i,
    {
        let mut j: usize = 0;
        while j < needle.len() && hay[i + j] == needle[j]
            invariant
                i <= last,
                0 < needle@.len() <= hay@.len(),
                hay@.len() <= usize::MAX,
                last == hay@.len() - needle@.len(),
                j <= needle@.len(),
                forall|t: int| 0 <= t < j ==> hay@[i + t] == needle@[t],
            decreases needle@.len() - j,
        {
            j += 1;
        }
        if j == needle.len() {
            proof {
                assert(hay@.subrange(i as int, i + needle@.len()) =~= needle@);
            }
            return true;
        }
        proof {
            assert(hay@.subrange(i as int, i + needle@.len())[j as int] != needle@[j as int]);
        }
        i += 1;
    }
    proof {
        assert forall|k: int| 0 <= k && k + needle@.len() <= hay@.len() implies #[trigger] hay@.subrange(
            k,
            k + needle@.len(),
        ) != needle@ by {}
    }
    false
}

/// A summary matches a lower-cased search text when its lower-cased title
/// or one of its lower-cased tags contains it.
pub open spec fn meta_matches(m: MetaModel, needle: Seq<char>) -> bool {
    contains_text(lowercase(m.1), needle) || exists|i: int|
        0 <= i < m.3.len() && contains_text(#[trigger] lowercase(m.3[i]), needle)
}

/// The summaries that match a lower-cased search text, in their order.
pub open spec fn filter_matching(metas: Seq<MetaModel>, needle: Seq<char>) -> Seq<MetaModel>
    decreases metas.len(),
{
    if metas.len() == 0 {
        metas
    } else if meta_matches(metas.last(), needle) {
        filter_matching(metas.drop_last(), needle).push(metas.last())
    } else {
        filter_matching(metas.drop_last(), needle)
    }
}

/// The summaries a search keeps: all of them for an empty search, else
/// those that match the lower-cased search.
pub open spec fn matching_model(metas: Seq<MetaModel>, search: Seq<char>) -> Seq<MetaModel> {
    if search.len() == 0 {
        metas
    } else {
        filter_matching(metas, lowercase(search))
    }
}

/// Whether a summary matches a lower-cased search text.
fn meta_matches_exec(m: &NoteMeta, needle: &Vec<char>) -> (r: bool)
    ensures
        r == meta_matches(m@, needle@),
{
    let title = chars_of(to_lowercase(m.title.as_str()).as_str());
    if contains_exec(&title, needle) {
        return true;
    }
    let mut i: usize = 0;
    while i < m.tags.len()
        invariant
            i <= m.tags@.len(),
            m@.3 == tags_model(m.tags@),
            forall|k: int| 0 <= k < i ==> !contains_text(#[trigger] lowercase(m@.3[k]), needle@),
        decreases m.tags@.len() - i,
    {
        let tag = chars_of(to_lowercase(m.tags[i].as_str()).as_str());
        proof {
            assert(m@.3[i as int] == m.tags@[i as int]@);
        }
        if contains_exec(&tag, needle) {
            return true;
        }
        i += 1;
    }
    false
}

/// A copy of a summary.
fn copy_meta(m: &NoteMeta) -> (r: NoteMeta)
    ensures
        r@ == m@,
{
    let mut tags: Vec<String> = Vec::new();
    let mut i: usize = 0;
    while i < m.tags.len()
        invariant
            i <= m.tags@.len(),
            tags@.len() == i,
            forall|k: int| 0 <= k < i ==> (#[trigger] tags@[k])@ == m.tags@[k]@,
        decreases m.tags@.len() - i,
    {
        tags.push(m.tags[i].clone());
        i += 1;
    }
    proof {
        assert(tags_model(tags@) =~= tags_model(m.tags@));
    }
    NoteMeta { id: m.id, title: m.title.clone(), updated_at: m.updated_at, tags }
}

/// The summaries that a search keeps, in their order: those on which the
/// keys act.
pub fn matching_notes(metas: &Vec<NoteMeta>, search: &str) -> (v: Vec<NoteMeta>)
    ensures
        metas_model(v@) == matching_model(metas_model(metas@), search@),
{
    let mut v: Vec<NoteMeta> = Vec::new();
    let empty = search.unicode_len() == 0;
    let needle = chars_of(to_lowercase(search).as_str());
    let mut i: usize = 0;
    while i < metas.len()
        invariant
            i <= metas@.len(),
            empty == (search@.len() == 0),
            needle@ == lowercase(search@),
            metas_model(v@) == matching_model(metas_model(metas@.subrange(0, i as int)), search@),
        decreases metas@.len() - i,
    {
        let ghost before = metas_model(metas@.subrange(0, i as int));
        let ghost after = metas_model(metas@.subrange(0, i + 1));
        proof {
            assert(after.drop_last() =~= before);
            assert(after.last() == metas@[i as int]@);
        }
        let keep = empty || meta_matches_exec(&metas[i], &needle);
        proof {
            if !empty {
                assert(matching_model(after, search@) == if meta_matches(after.last(), needle@) {
                    matching_model(before, search@).push(after.last())
                } else {
                    matching_model(before, search@)
                });
            }
        }
        if keep {
            let ghost old_v = v@;
            let c = copy_meta(&metas[i]);
            v.push(c);
            proof {
                assert(metas_model(v@) =~= metas_model(old_v).push(c@));
            }
        }
        i += 1;
    }
    proof {
        assert(metas@.subrange(0, metas@.len() as int) =~= metas@);
    }
    v
}

/// The order of the note list.
#[derive(Debug, Clone, Copy, PartialEq, Eq, Structural)]
pub enum SortMode {
    Id,
    Title,
    Updated,
}

/// `a` comes before `b` in the order of texts that `String` compares by:
/// character by character (by code point, as the UTF-8 bytes compare), a
/// proper prefix first.
pub open spec fn text_lt(a: Seq<char>, b: Seq<char>) -> bool
    decreases a.len(),
{
    if b.len() == 0 {
        false
    } else if a.len() == 0 {
        true
    } else if a[0] != b[0] {
        (a[0] as u32) < (b[0] as u32)
    } else {
        text_lt(a.drop_first(), b.drop_first())
    }
}

/// `a` sorts after `x`: its key under the mode is greater.
pub open spec fn sorts_after(mode: SortMode, a: MetaModel, x: MetaModel) -> bool {
    match mode {
        SortMode::Id => a.0 > x.0,
        SortMode::Title => text_lt(x.1, a.1),
        SortMode::Updated => a.2 > x.2,
    }
}

/// `x` inserted into `s` after every summary that does not sort after it.
pub open spec fn insert_by_key(s: Seq<MetaModel>, x: MetaModel, mode: SortMode) -> Seq<MetaModel>
    decreases s.len(),
{
    if s.len() == 0 {
        seq![x]
    } else if sorts_after(mode, s[0], x) {
        seq![x] + s
    } else {
        seq![s[0]] + insert_by_key(s.drop_first(), x, mode)
    }
}

/// The summaries stably sorted by their key under the mode: what
/// `sort_by_key` (by id or time) and `sort_by` (by title) give; summaries
/// with equal keys keep their order.
pub open spec fn sort_by_key(s: Seq<MetaModel>, mode: SortMode) -> Seq<MetaModel>
    decreases s.len(),
{
    if s.len() == 0 {
        s
    } else {
        insert_by_key(sort_by_key(s.drop_last(), mode), s.last(), mode)
    }
}

/// The summaries the list shows: those the search keeps, sorted under the
/// mode, and reversed when the order is descending.
pub open spec fn visible_model(metas: Seq<MetaModel>, search: Seq<char>, mode: SortMode, desc: bool) -> Seq<
    MetaModel,
> {
    let sorted = sort_by_key(matching_model(metas, search), mode);
    if desc {
        sorted.reverse()
    } else {
        sorted
    }
}

/// Inserting at the first position that sorts after `x` is `insert_by_key`.
proof fn lemma_insert_by_key_at(s: Seq<MetaModel>, x: MetaModel, mode: SortMode, j: int)
    requires
        0 <= j <= s.len(),
        forall|k: int| 0 <= k < j ==> !sorts_after(mode, #[trigger] s[k], x),
        j < s.len() ==> sorts_after(mode, s[j], x),
    ensures
        insert_by_key(s, x, mode) == s.insert(j, x),
    decreases s.len(),
{
    if s.len() == 0 {
        assert(s.insert(j, x) =~= seq![x]);
    } else if j == 0 {
        assert(s.insert(j, x) =~= seq![x] + s);
    } else {
        let t = s.drop_first();
        assert forall|k: int| 0 <= k < j - 1 implies !sorts_after(mode, #[trigger] t[k], x) by {
            assert(t[k] == s[k + 1]);
        }
        lemma_insert_by_key_at(t, x, mode, j - 1);
        assert(s.insert(j, x) =~= seq![s[0]] + t.insert(j - 1, x));
    }
}

/// Whether `a` comes before `b` in the order of texts.
fn text_lt_exec(a: &Vec<char>, b: &Vec<char>) -> (r: bool)
    ensures
        r == text_lt(a@, b@),
{
    let mut i: usize = 0;
    proof {
        assert(a@.subrange(0, a@.len() as int) =~= a@);
        assert(b@.subrange(0, b@.len() as int) =~= b@);
    }
    while i < a.len() && i < b.len() && a[i] == b[i]
        invariant
            i <= a@.len(),
            i <= b@.len(),
            text_lt(a@, b@) == text_lt(a@.subrange(i as int, a@.len() as int), b@.subrange(i as int, b@.len() as int)),
        decreases a@.len() - i,
    {
        proof {
            assert(a@.subrange(i as int, a@.len() as int).drop_first() =~= a@.subrange(i + 1, a@.len() as int));
            assert(b@.subrange(i as int, b@.len() as int).drop_first() =~= b@.subrange(i + 1, b@.len() as int));
        }
        i += 1;
    }
    if i == b.len() {
        false
    } else if i == a.len() {
        true
    } else {
        proof {
            assert(a@.subrange(i as int, a@.len() as int)[0] == a@[i as int]);
            assert(b@.subrange(i as int, b@.len() as int)[0] == b@[i as int]);
        }
        (a[i] as u32) < (b[i] as u32)
    }
}

/// Whether `a` sorts after `x` under the mode.
fn sorts_after_exec(mode: SortMode, a: &NoteMeta, x: &NoteMeta) -> (r: bool)
    ensures
        r == sorts_after(mode, a@, x@),
{
    match mode {
        SortMode::Id => a.id > x.id,
        SortMode::Title => text_lt_exec(&chars_of(x.title.as_str()), &chars_of(a.title.as_str())),
        SortMode::Updated => a.updated_at > x.updated_at,
    }
}

/// The summaries stably sorted under the mode, as `sort_by_key` says.
fn sort_metas(metas: &Vec<NoteMeta>, mode: SortMode) -> (v: Vec<NoteMeta>)
    ensures
        metas_model(v@) == sort_by_key(metas_model(metas@), mode),
{
    let mut v: Vec<NoteMeta> = Vec::new();
    let mut i: usize = 0;
    while i < metas.len()
        invariant
            i <= metas@.len(),
            metas_model(v@) == sort_by_key(metas_model(metas@.subrange(0, i as int)), mode),
        decreases metas@.len() - i,
    {
        let x = copy_meta(&metas[i]);
        let mut j: usize = 0;
        while j < v.len() && !sorts_after_exec(mode, &v[j], &x)
            invariant
                j <= v@.len(),
                forall|k: int| 0 <= k < j ==> !sorts_after(mode, #[trigger] v@[k]@, x@),
            decreases v@.len() - j,
        {
            j += 1;
        }
        proof {
            let s = metas_model(v@);
            assert forall|k: int| 0 <= k < j implies !sorts_after(mode, #[trigger] s[k], x@) by {
                assert(s[k] == v@[k]@);
            }
            if j < s.len() {
                assert(s[j as int] == v@[j as int]@);
            }
            lemma_insert_by_key_at(s, x@, mode, j as int);
            let after = metas_model(metas@.subrange(0, i + 1));
            assert(after.drop_last() =~= metas_model(metas@.subrange(0, i as int)));
            assert(after.last() == x@);
        }
        let ghost before = v@;
        v.insert(j, x);
        proof {
            assert(metas_model(v@) =~= metas_model(before).insert(j as int, x@));
        }
        i += 1;
    }
    proof {
        assert(metas@.subrange(0, metas@.len() as int) =~= metas@);
    }
    v
}

/// The summaries reversed.
fn reverse_metas(v: Vec<NoteMeta>) -> (r: Vec<NoteMeta>)
    ensures
        metas_model(r@) == metas_model(v@).reverse(),
{
    let mut v = v;
    let mut r: Vec<NoteMeta> = Vec::new();
    let ghost orig = v@;
    while v.len() > 0
        invariant
            v@ == orig.subrange(0, v@.len() as int),
            v@.len() <= orig.len(),
            r@.len() == orig.len() - v@.len(),
            forall|k: int| 0 <= k < r@.len() ==> #[trigger] r@[k] == orig[orig.len() - 1 - k],
        decreases v@.len(),
    {
        let m = v.pop().unwrap();
        r.push(m);
    }
    proof {
        assert(metas_model(r@) =~= metas_model(orig).reverse());
    }
    r
}

/// The summaries the list shows, as `visible_model` says.
pub fn visible_notes(metas: &Vec<NoteMeta>, search: &str, sort_mode: SortMode, sort_desc: bool) -> (v: Vec<NoteMeta>)
    ensures
        metas_model(v@) == visible_model(metas_model(metas@), search@, sort_mode, sort_desc),
{
    let matching = matching_notes(metas, search);
    let sorted = sort_metas(&matching, sort_mode);
    if sort_desc {
        reverse_metas(sorted)
    } else {
        sorted
    }
}

/// A key the browser reads.
#[derive(Debug, Clone, Copy, PartialEq, Eq, Structural)]
pub enum KeyInput {
    Char(char),
    Enter,
    Esc,
    Backspace,
    Up,
    Down,
    Other,
}

/// What the browser asks its caller to do after a key.
#[derive(Debug, PartialEq, Eq)]
pub enum BrowseAction {
    Nothing,
    Quit,
    DeleteNote(u64),
    CreateNote(String),
    EditNote(u64),
    AttachImage(u64),
    OpenImage(u64),
}

/// The model of an action.
pub enum ActionModel {
    Nothing,
    Quit,
    DeleteNote(u64),
    CreateNote(Seq<char>),
    EditNote(u64),
    AttachImage(u64),
    OpenImage(u64),
}

impl View for BrowseAction {
    type V = ActionModel;

    open spec fn view(&self) -> ActionModel {
        match self {
            BrowseAction::Nothing => ActionModel::Nothing,
            BrowseAction::Quit => ActionModel::Quit,
            BrowseAction::DeleteNote(id) => ActionModel::DeleteNote(*id),
            BrowseAction::CreateNote(t) => ActionModel::CreateNote(t@),
            BrowseAction::EditNote(id) => ActionModel::EditNote(*id),
            BrowseAction::AttachImage(id) => ActionModel::AttachImage(*id),
            BrowseAction::OpenImage(id) => ActionModel::OpenImage(*id),
        }
    }
}

/// How carrying out an action went: done, with the number of notes listed
/// afterwards, or failed with a message to show.
pub enum ActionOutcome {
    Done(usize),
    Failed(String),
}

/// The browser's state: the selected row, the search text and whether it
/// is being typed, the title of a new note and whether it is being typed,
/// the message shown, a deletion waiting for confirmation, and the order.
pub struct BrowseState {
    pub selected: usize,
    pub search: String,
    pub in_search: bool,
    pub in_new: bool,
    pub new_title: String,
    pub error: Option<String>,
    pub confirm_delete: bool,
    pub delete_id: Option<u64>,
    pub sort_mode: SortMode,
    pub sort_desc: bool,
}

/// The model of the browser's state.
pub struct BrowseModel {
    pub selected: usize,
    pub search: Seq<char>,
    pub in_search: bool,
    pub in_new: bool,
    pub new_title: Seq<char>,
    pub error: Option<Seq<char>>,
    pub confirm_delete: bool,
    pub delete_id: Option<u64>,
    pub sort_mode: SortMode,
    pub sort_desc: bool,
}

impl View for BrowseState {
    type V = BrowseModel;

    open spec fn view(&self) -> BrowseModel {
        BrowseModel {
            selected: self.selected,
            search: self.search@,
            in_search: self.in_search,
            in_new: self.in_new,
            new_title: self.new_title@,
            error: match self.error {
                Some(e) => Some(e@),
                None => None,
            },
            confirm_delete: self.confirm_delete,
            delete_id: self.delete_id,
            sort_mode: self.sort_mode,
            sort_desc: self.sort_desc,
        }
    }
}

/// The text without its last character, if it has one (`String::pop`).
pub open spec fn pop_last(s: Seq<char>) -> Seq<char> {
    if s.len() > 0 {
        s.drop_last()
    } else {
        s
    }
}

/// The next order in the cycle id, title, update time.
pub open spec fn next_sort(m: SortMode) -> SortMode {
    match m {
        SortMode::Id => SortMode::Title,
        SortMode::Title => SortMode::Updated,
        SortMode::Updated => SortMode::Id,
    }
}

/// The message shown when attaching an image with no note listed.
pub open spec fn no_note_selected() -> Seq<char> {
    "No note selected"@
}

/// The browser's next state and the action it asks for after `key`, with
/// `matching` the summaries the search keeps (in their unsorted order, on
/// which the keys act). A pending deletion takes `y` (delete), `n` or Esc
/// (cancel); a new title takes characters, Backspace, Enter (create, when
/// the trimmed title is not empty) and Esc; a search takes characters,
/// Backspace, and Enter or Esc (stop typing and keep the selection inside
/// the matches). Otherwise: `q` quits, `n` starts a new title, `/` a new
/// search, `d` asks to delete the selected note, `e` edits it, `i` opens its
/// image, `a` attaches one, Up/`k` and Down/`j` move the selection, `s`
/// cycles the order and `S` flips its direction.
pub open spec fn step_model(s: BrowseModel, matching: Seq<MetaModel>, key: KeyInput) -> (BrowseModel, ActionModel) {
    let n = matching.len();
    if s.confirm_delete {
        match key {
            KeyInput::Char('y') => (
                BrowseModel { confirm_delete: false, delete_id: None, ..s },
                match s.delete_id {
                    Some(id) => ActionModel::DeleteNote(id),
                    None => ActionModel::Nothing,
                },
            ),
            KeyInput::Char('n') | KeyInput::Esc => (
                BrowseModel { confirm_delete: false, delete_id: None, ..s },
                ActionModel::Nothing,
            ),
            _ => (s, ActionModel::Nothing),
        }
    } else if s.in_new {
        match key {
            KeyInput::Esc => (BrowseModel { in_new: false, error: None, ..s }, ActionModel::Nothing),
            KeyInput::Backspace => (BrowseModel { new_title: pop_last(s.new_title), ..s }, ActionModel::Nothing),
            KeyInput::Char(c) => (BrowseModel { new_title: s.new_title.push(c), ..s }, ActionModel::Nothing),
            KeyInput::Enter => if trim_chars(s.new_title).len() > 0 {
                (s, ActionModel::CreateNote(trim_chars(s.new_title)))
            } else {
                (s, ActionModel::Nothing)
            },
            _ => (s, ActionModel::Nothing),
        }
    } else if s.in_search {
        match key {
            KeyInput::Esc | KeyInput::Enter => (
                BrowseModel {
                    in_search: false,
                    selected: if n > 0 && s.selected >= n {
                        (n - 1) as usize
                    } else {
                        s.selected
                    },
                    ..s
                },
                ActionModel::Nothing,
            ),
            KeyInput::Backspace => (BrowseModel { search: pop_last(s.search), ..s }, ActionModel::Nothing),
            KeyInput::Char(c) => (BrowseModel { search: s.search.push(c), ..s }, ActionModel::Nothing),
            _ => (s, ActionModel::Nothing),
        }
    } else {
        match key {
            KeyInput::Char('q') => (s, ActionModel::Quit),
            KeyInput::Char('n') => (
                BrowseModel { in_new: true, new_title: Seq::empty(), error: None, ..s },
                ActionModel::Nothing,
            ),
            KeyInput::Char('/') => (BrowseModel { in_search: true, search: Seq::empty(), ..s }, ActionModel::Nothing),
            KeyInput::Char('d') => if s.selected < n {
                (
                    BrowseModel {
                        confirm_delete: true,
                        delete_id: Some(matching[s.selected as int].0),
                        error: None,
                        ..s
                    },
                    ActionModel::Nothing,
                )
            } else {
                (s, ActionModel::Nothing)
            },
            KeyInput::Char('e') => if s.selected < n {
                (s, ActionModel::EditNote(matching[s.selected as int].0))
            } else {
                (s, ActionModel::Nothing)
            },
            KeyInput::Char('i') => if s.selected < n {
                (s, ActionModel::OpenImage(matching[s.selected as int].0))
            } else {
                (s, ActionModel::Nothing)
            },
            KeyInput::Char('a') => if n == 0 {
                (BrowseModel { error: Some(no_note_selected()), ..s }, ActionModel::Nothing)
            } else {
                let sel: usize = if s.selected >= n {
                    (n - 1) as usize
                } else {
                    s.selected
                };
                (BrowseModel { selected: sel, ..s }, ActionModel::AttachImage(matching[sel as int].0))
            },
            KeyInput::Up | KeyInput::Char('k') => (
                BrowseModel {
                    selected: if s.selected > 0 {
                        (s.selected - 1) as usize
                    } else {
                        0
                    },
                    error: None,
                    ..s
                },
                ActionModel::Nothing,
            ),
            KeyInput::Down | KeyInput::Char('j') => if s.selected + 1 < n {
                (BrowseModel { selected: (s.selected + 1) as usize, error: None, ..s }, ActionModel::Nothing)
            } else {
                (s, ActionModel::Nothing)
            },
            KeyInput::Char('s') => (BrowseModel { sort_mode: next_sort(s.sort_mode), ..s }, ActionModel::Nothing),
            KeyInput::Char('S') => (BrowseModel { sort_desc: !s.sort_desc, ..s }, ActionModel::Nothing),
            _ => (s, ActionModel::Nothing),
        }
    }
}

/// Calls `String::push`. Claimed: the character is appended.
#[verifier::external_body]
fn push_char(s: &mut String, c: char)
    ensures
        final(s)@ == old(s)@.push(c),
{
    s.push(c);
}

/// Calls `String::pop`. Claimed: the last character, if any, is removed.
#[verifier::external_body]
fn pop_char(s: &mut String)
    ensures
        final(s)@ == pop_last(old(s)@),
{
    s.pop();
}

/// The text trimmed of whitespace at both ends.
fn trim_string(s: &String) -> (r: String)
    ensures
        r@ == trim_chars(s@),
{
    let cs = chars_of(s.as_str());
    let n = cs.len();
    let a = skip_white_exec(&cs, 0, n);
    let b = trim_end_exec(&cs, a, n);
    proof {
        assert(cs@.subrange(0, n as int) =~= cs@);
    }
    s.as_str().substring_char(a, b).to_owned()
}

/// The model of the browser when it starts: first row, no search, no new
/// title, no message, nothing to confirm, newest first.
pub open spec fn initial_model() -> BrowseModel {
    BrowseModel {
        selected: 0,
        search: Seq::empty(),
        in_search: false,
        in_new: false,
        new_title: Seq::empty(),
        error: None,
        confirm_delete: false,
        delete_id: None,
        sort_mode: SortMode::Updated,
        sort_desc: true,
    }
}

/// The selection kept inside a list of `n` rows, as drawing the list does.
pub open spec fn clamp_model(s: BrowseModel, n: nat) -> BrowseModel {
    if n > 0 && s.selected >= n {
        BrowseModel { selected: (n - 1) as usize, ..s }
    } else {
        s
    }
}

/// The browser after its caller carried out `action` with `outcome`: a
/// failure shows its message; a deletion keeps the selection inside the
/// notes listed afterwards (the first row when none is left); a creation
/// selects the last row, stops typing the title and clears it; done edits
/// and attachments clear the message.
pub open spec fn after_model(s: BrowseModel, action: ActionModel, outcome: Result<nat, Seq<char>>) -> BrowseModel {
    match outcome {
        Err(msg) => match action {
            ActionModel::Nothing | ActionModel::Quit => s,
            _ => BrowseModel { error: Some(msg), ..s },
        },
        Ok(n) => match action {
            ActionModel::DeleteNote(_) => BrowseModel {
                selected: if n > 0 && s.selected >= n {
                    (n - 1) as usize
                } else if n == 0 {
                    0
                } else {
                    s.selected
                },
                error: None,
                ..s
            },
            ActionModel::CreateNote(_) => BrowseModel {
                selected: if n > 0 {
                    (n - 1) as usize
                } else {
                    s.selected
                },
                in_new: false,
                new_title: Seq::empty(),
                error: None,
                ..s
            },
            ActionModel::EditNote(_) | ActionModel::AttachImage(_) => BrowseModel { error: None, ..s },
            _ => s,
        },
    }
}

/// The model of an outcome.
pub open spec fn outcome_model(o: &ActionOutcome) -> Result<nat, Seq<char>> {
    match o {
        ActionOutcome::Done(n) => Ok(*n as nat),
        ActionOutcome::Failed(m) => Err(m@),
    }
}

impl BrowseState {
    /// The browser when it starts, as `initial_model` says.
    pub fn new() -> (s: Self)
        ensures
            s@ == initial_model(),
    {
        BrowseState {
            selected: 0,
            search: String::new(),
            in_search: false,
            in_new: false,
            new_title: String::new(),
            error: None,
            confirm_delete: false,
            delete_id: None,
            sort_mode: SortMode::Updated,
            sort_desc: true,
        }
    }
}

/// Keeps the selection inside a list of `n` rows, as `clamp_model` says.
pub fn clamp_selected(state: BrowseState, n: usize) -> (r: BrowseState)
    ensures
        r@ == clamp_model(state@, n as nat),
{
    let mut state = state;
    if n > 0 && state.selected >= n {
        state.selected = n - 1;
    }
    state
}

/// The browser's next state and action after `key`, as `step_model` says.
pub fn browse_step(state: BrowseState, matching: &Vec<NoteMeta>, key: KeyInput) -> (r: (BrowseState, BrowseAction))
    ensures
        r.0@ == step_model(state@, metas_model(matching@), key).0,
        r.1@ == step_model(state@, metas_model(matching@), key).1,
        state.in_search && !state.in_new && !state.confirm_delete ==> (key matches KeyInput::Char(c) ==> r.0@
            == BrowseModel { search: state@.search.push(c), ..state@ } && r.1@ == ActionModel::Nothing),
        state.in_new && !state.confirm_delete ==> (key matches KeyInput::Char(c) ==> r.0@ == BrowseModel {
            new_title: state@.new_title.push(c),
            ..state@
        } && r.1@ == ActionModel::Nothing),
{
    proof {
        if let KeyInput::Char(c) = key {
            law_typing_takes_every_character(state@, metas_model(matching@), c);
        }
    }
    let mut s = state;
    let n = matching.len();
    proof {
        assert(metas_model(matching@).len() == n);
    }
    if s.confirm_delete {
        match key {
            KeyInput::Char('y') => {
                let action = match s.delete_id {
                    Some(id) => BrowseAction::DeleteNote(id),
                    None => BrowseAction::Nothing,
                };
                s.confirm_delete = false;
                s.delete_id = None;
                (s, action)
            },
            KeyInput::Char('n') | KeyInput::Esc => {
                s.confirm_delete = false;
                s.delete_id = None;
                (s, BrowseAction::Nothing)
            },
            _ => (s, BrowseAction::Nothing),
        }
    } else if s.in_new {
        match key {
            KeyInput::Esc => {
                s.in_new = false;
                s.error = None;
                (s, BrowseAction::Nothing)
            },
            KeyInput::Backspace => {
                pop_char(&mut s.new_title);
                (s, BrowseAction::Nothing)
            },
            KeyInput::Char(c) => {
                push_char(&mut s.new_title, c);
                (s, BrowseAction::Nothing)
            },
            KeyInput::Enter => {
                let title = trim_string(&s.new_title);
                if title.unicode_len() > 0 {
                    (s, BrowseAction::CreateNote(title))
                } else {
                    (s, BrowseAction::Nothing)
                }
            },
            _ => (s, BrowseAction::Nothing),
        }
    } else if s.in_search {
        match key {
            KeyInput::Esc | KeyInput::Enter => {
                s.in_search = false;
                if n > 0 && s.selected >= n {
                    s.selected = n - 1;
                }
                (s, BrowseAction::Nothing)
            },
            KeyInput::Backspace => {
                pop_char(&mut s.search);
                (s, BrowseAction::Nothing)
            },
            KeyInput::Char(c) => {
                push_char(&mut s.search, c);
                (s, BrowseAction::Nothing)
            },
            _ => (s, BrowseAction::Nothing),
        }
    } else {
        match key {
            KeyInput::Char('q') => (s, BrowseAction::Quit),
            KeyInput::Char('n') => {
                s.in_new = true;
                s.new_title = String::new();
                s.error = None;
                (s, BrowseAction::Nothing)
            },
            KeyInput::Char('/') => {
                s.in_search = true;
                s.search = String::new();
                (s, BrowseAction::Nothing)
            },
            KeyInput::Char('d') => {
                if s.selected < n {
                    proof {
                        assert(metas_model(matching@)[s.selected as int] == matching@[s.selected as int]@);
                    }
                    s.delete_id = Some(matching[s.selected].id);
                    s.confirm_delete = true;
                    s.error = None;
                }
                (s, BrowseAction::Nothing)
            },
            KeyInput::Char('e') => {
                if s.selected < n {
                    proof {
                        assert(metas_model(matching@)[s.selected as int] == matching@[s.selected as int]@);
                    }
                    let id = matching[s.selected].id;
                    (s, BrowseAction::EditNote(id))
                } else {
                    (s, BrowseAction::Nothing)
                }
            },
            KeyInput::Char('i') => {
                if s.selected < n {
                    proof {
                        assert(metas_model(matching@)[s.selected as int] == matching@[s.selected as int]@);
                    }
                    let id = matching[s.selected].id;
                    (s, BrowseAction::OpenImage(id))
                } else {
                    (s, BrowseAction::Nothing)
                }
            },
            KeyInput::Char('a') => {
                if n == 0 {
                    s.error = Some("No note selected".to_owned());
                    (s, BrowseAction::Nothing)
                } else {
                    if s.selected >= n {
                        s.selected = n - 1;
                    }
                    proof {
                        assert(metas_model(matching@)[s.selected as int] == matching@[s.selected as int]@);
                    }
                    let id = matching[s.selected].id;
                    (s, BrowseAction::AttachImage(id))
                }
            },
            KeyInput::Up | KeyInput::Char('k') => {
                if s.selected > 0 {
                    s.selected = s.selected - 1;
                }
                s.error = None;
                (s, BrowseAction::Nothing)
            },
            KeyInput::Down | KeyInput::Char('j') => {
                if s.selected < n && s.selected + 1 < n {
                    s.selected = s.selected + 1;
                    s.error = None;
                }
                (s, BrowseAction::Nothing)
            },
            KeyInput::Char('s') => {
                s.sort_mode = match s.sort_mode {
                    SortMode::Id => SortMode::Title,
                    SortMode::Title => SortMode::Updated,
                    SortMode::Updated => SortMode::Id,
                };
                (s, BrowseAction::Nothing)
            },
            KeyInput::Char('S') => {
                s.sort_desc = !s.sort_desc;
                (s, BrowseAction::Nothing)
            },
            _ => (s, BrowseAction::Nothing),
        }
    }
}

/// The browser after its caller carried out `action`, as `after_model` says.
pub fn after_action(state: BrowseState, action: &BrowseAction, outcome: ActionOutcome) -> (r: BrowseState)
    ensures
        r@ == after_model(state@, action@, outcome_model(&outcome)),
{
    let mut s = state;
    match outcome {
        ActionOutcome::Failed(msg) => {
            match action {
                BrowseAction::Nothing | BrowseAction::Quit => {},
                _ => {
                    s.error = Some(msg);
                },
            }
        },
        ActionOutcome::Done(n) => {
            match action {
                BrowseAction::DeleteNote(_) => {
                    if n > 0 && s.selected >= n {
                        s.selected = n - 1;
                    } else if n == 0 {
                        s.selected = 0;
                    }
                    s.error = None;
                },
                BrowseAction::CreateNote(_) => {
                    if n > 0 {
                        s.selected = n - 1;
                    }
                    s.in_new = false;
                    s.new_title = String::new();
                    s.error = None;
                },
                BrowseAction::EditNote(_) | BrowseAction::AttachImage(_) => {
                    s.error = None;
                },
                _ => {},
            }
        },
    }
    s
}

/// The order of texts is transitive.
proof fn lemma_text_lt_trans(a: Seq<char>, b: Seq<char>, c: Seq<char>)
    requires
        text_lt(a, b),
        text_lt(b, c),
    ensures
        text_lt(a, c),
    decreases a.len(),
{
    if a.len() > 0 && b.len() > 0 && c.len() > 0 && a[0] == b[0] && b[0] == c[0] {
        lemma_text_lt_trans(a.drop_first(), b.drop_first(), c.drop_first());
    }
}

/// No text comes before itself.
proof fn lemma_text_lt_irreflexive(a: Seq<char>)
    ensures
        !text_lt(a, a),
    decreases a.len(),
{
    if a.len() > 0 {
        lemma_text_lt_irreflexive(a.drop_first());
    }
}

/// A key below one that is not above a third (or is the third) is not
/// above the third either.
proof fn lemma_sorts_after_mixed(mode: SortMode, b: MetaModel, x: MetaModel, c: MetaModel)
    requires
        sorts_after(mode, b, x),
        !sorts_after(mode, b, c) || b == c,
    ensures
        !sorts_after(mode, x, c),
{
    if mode == SortMode::Title && text_lt(c.1, x.1) {
        lemma_text_lt_trans(c.1, x.1, b.1);
        lemma_text_lt_irreflexive(b.1);
    }
}

/// Summaries in non-decreasing order of their key under the mode.
pub open spec fn sorted_by_key(s: Seq<MetaModel>, mode: SortMode) -> bool {
    forall|i: int, j: int| 0 <= i < j < s.len() ==> !sorts_after(mode, #[trigger] s[i], #[trigger] s[j])
}

/// Inserting into sorted summaries keeps them sorted, and adds exactly `x`.
proof fn lemma_insert_by_key_sorted(s: Seq<MetaModel>, x: MetaModel, mode: SortMode)
    requires
        sorted_by_key(s, mode),
    ensures
        sorted_by_key(insert_by_key(s, x, mode), mode),
        insert_by_key(s, x, mode).to_multiset() =~= s.to_multiset().insert(x),
    decreases s.len(),
{
    broadcast use vstd::seq_lib::group_to_multiset_ensures;
    let r = insert_by_key(s, x, mode);
    if s.len() == 0 {
        assert(seq![x] =~= Seq::<MetaModel>::empty().push(x));
    } else if sorts_after(mode, s[0], x) {
        assert(r =~= seq![x] + s);
        assert forall|i: int, j: int| 0 <= i < j < r.len() implies !sorts_after(mode, #[trigger] r[i], #[trigger] r[j]) by {
            if i > 0 {
                assert(r[i] == s[i - 1] && r[j] == s[j - 1]);
            } else {
                assert(r[j] == s[j - 1]);
                if j - 1 > 0 {
                    assert(!sorts_after(mode, s[0], s[j - 1]));
                }
                lemma_sorts_after_mixed(mode, s[0], x, s[j - 1]);
            }
        }
        vstd::seq_lib::lemma_multiset_commutative(seq![x], s);
        assert(seq![x].to_multiset() =~= vstd::multiset::Multiset::empty().insert(x)) by {
            assert(seq![x] =~= Seq::<MetaModel>::empty().push(x));
        }
    } else {
        let t = s.drop_first();
        assert(sorted_by_key(t, mode)) by {
            assert forall|i: int, j: int| 0 <= i < j < t.len() implies !sorts_after(mode, #[trigger] t[i], #[trigger] t[j]) by {
                assert(t[i] == s[i + 1] && t[j] == s[j + 1]);
            }
        }
        lemma_insert_by_key_sorted(t, x, mode);
        let ti = insert_by_key(t, x, mode);
        assert(r =~= seq![s[0]] + ti);
        assert forall|k: int| 0 <= k < ti.len() implies !sorts_after(mode, s[0], #[trigger] ti[k]) by {
            assert(ti.to_multiset().contains(ti[k]));
            assert(t.to_multiset().insert(x).contains(ti[k]));
            if ti[k] != x {
                assert(t.to_multiset().contains(ti[k]));
                assert(t.contains(ti[k]));
                let m = choose|m: int| 0 <= m < t.len() && t[m] == ti[k];
                assert(s[m + 1] == t[m]);
            }
        }
        assert forall|i: int, j: int| 0 <= i < j < r.len() implies !sorts_after(mode, #[trigger] r[i], #[trigger] r[j]) by {
            assert(r[j] == ti[j - 1]);
            if i > 0 {
                assert(r[i] == ti[i - 1]);
            }
        }
        vstd::seq_lib::lemma_multiset_commutative(seq![s[0]], ti);
        vstd::seq_lib::lemma_multiset_commutative(seq![s[0]], t);
        assert(s =~= seq![s[0]] + t);
    }
}

/// Sorting under a mode gives the same summaries, in non-decreasing order
/// of their key; the list shows them so, or in reverse when descending.
pub proof fn law_sort_by_key(s: Seq<MetaModel>, mode: SortMode)
    ensures
        sorted_by_key(sort_by_key(s, mode), mode),
        sort_by_key(s, mode).to_multiset() =~= s.to_multiset(),
    decreases s.len(),
{
    broadcast use vstd::seq_lib::group_to_multiset_ensures;
    if s.len() > 0 {
        law_sort_by_key(s.drop_last(), mode);
        lemma_insert_by_key_sorted(sort_by_key(s.drop_last(), mode), s.last(), mode);
        assert(s =~= s.drop_last().push(s.last()));
    }
}

/// A key keeps a selection that lies inside the list of matches inside it,
/// and drawing a list keeps the selection inside it.
pub proof fn law_selection_stays_in_list(s: BrowseModel, matching: Seq<MetaModel>, key: KeyInput)
    ensures
        s.selected < matching.len() ==> step_model(s, matching, key).0.selected < matching.len(),
        matching.len() > 0 ==> clamp_model(s, matching.len()).selected < matching.len(),
{
}

/// While a search or a new title is being typed, every character key goes
/// into the text being typed, and asks for nothing: no character quits,
/// deletes or moves the selection then, and the rest of the state stays.
pub proof fn law_typing_takes_every_character(s: BrowseModel, matching: Seq<MetaModel>, c: char)
    ensures
        s.in_search && !s.in_new && !s.confirm_delete ==> step_model(s, matching, KeyInput::Char(c)) == (
            BrowseModel { search: s.search.push(c), ..s },
            ActionModel::Nothing,
        ),
        s.in_new && !s.confirm_delete ==> step_model(s, matching, KeyInput::Char(c)) == (
            BrowseModel { new_title: s.new_title.push(c), ..s },
            ActionModel::Nothing,
        ),
{
}

/// What filtering by a lower-cased search text keeps: exactly the
/// summaries that match, each from the input.
proof fn lemma_filter_matching(metas: Seq<MetaModel>, needle: Seq<char>)
    ensures
        forall|j: int| 0 <= j < metas.len() && meta_matches(#[trigger] metas[j], needle) ==> filter_matching(
            metas,
            needle,
        ).contains(metas[j]),
        forall|x: MetaModel| #[trigger] filter_matching(metas, needle).contains(x) ==> metas.contains(x)
            && meta_matches(x, needle),
    decreases metas.len(),
{
    if metas.len() > 0 {
        let q = metas.drop_last();
        lemma_filter_matching(q, needle);
        let f = filter_matching(metas, needle);
        let fq = filter_matching(q, needle);
        assert forall|j: int| 0 <= j < metas.len() && meta_matches(#[trigger] metas[j], needle) implies f.contains(
            metas[j],
        ) by {
            if j < q.len() {
                assert(q[j] == metas[j]);
                assert(fq.contains(q[j]));
                let k = choose|k: int| 0 <= k < fq.len() && fq[k] == q[j];
                if meta_matches(metas.last(), needle) {
                    assert(f[k] == fq[k]);
                }
            } else {
                assert(f[f.len() - 1] == metas[j]);
            }
        }
        assert forall|x: MetaModel| #[trigger] f.contains(x) implies metas.contains(x) && meta_matches(x, needle) by {
            let k = choose|k: int| 0 <= k < f.len() && f[k] == x;
            if meta_matches(metas.last(), needle) && k == f.len() - 1 {
                assert(metas[metas.len() - 1] == x);
            } else {
                assert(fq[k] == x);
                assert(fq.contains(x));
                let j = choose|j: int| 0 <= j < q.len() && q[j] == x;
                assert(metas[j] == x);
            }
        }
    }
}

/// An empty search keeps every summary. A search keeps a summary exactly
/// when its lower-cased title or any one of its lower-cased tags (at any
/// position) contains the lower-cased search text; it keeps nothing else.
pub proof fn law_search_keeps_exactly_the_matches(metas: Seq<MetaModel>, search: Seq<char>)
    ensures
        search.len() == 0 ==> matching_model(metas, search) == metas,
        search.len() > 0 ==> forall|j: int, i: int|
            0 <= j < metas.len() && 0 <= i < metas[j].3.len() && contains_text(
                lowercase(#[trigger] metas[j].3[i]),
                lowercase(search),
            ) ==> matching_model(metas, search).contains(metas[j]),
        search.len() > 0 ==> forall|j: int|
            0 <= j < metas.len() && contains_text(lowercase(#[trigger] metas[j].1), lowercase(search))
                ==> matching_model(metas, search).contains(metas[j]),
        search.len() > 0 ==> forall|x: MetaModel| #[trigger]
            matching_model(metas, search).contains(x) ==> metas.contains(x) && (contains_text(
                lowercase(x.1),
                lowercase(search),
            ) || exists|i: int| 0 <= i < x.3.len() && contains_text(#[trigger] lowercase(x.3[i]), lowercase(search))),
{
    if search.len() > 0 {
        let needle = lowercase(search);
        lemma_filter_matching(metas, needle);
        assert forall|j: int, i: int|
            0 <= j < metas.len() && 0 <= i < metas[j].3.len() && contains_text(
                lowercase(#[trigger] metas[j].3[i]),
                needle,
            ) implies matching_model(metas, search).contains(metas[j]) by {
            assert(meta_matches(metas[j], needle));
        }
        assert forall|j: int|
            0 <= j < metas.len() && contains_text(lowercase(#[trigger] metas[j].1), needle) implies matching_model(
                metas,
                search,
            ).contains(metas[j]) by {
            assert(meta_matches(metas[j], needle));
        }
    }
}

/// Outside the typing modes and a pending deletion: `q` quits and changes
/// nothing; `d` on a selected match asks to confirm deleting exactly that
/// note and deletes nothing yet; `e`, `i` and `a` act on the note at the
/// selection; Up and Down move the selection by one row within the matches
/// (a list that fits in memory).
pub proof fn law_browsing_keys(s: BrowseModel, matching: Seq<MetaModel>)
    requires
        !s.confirm_delete,
        !s.in_new,
        !s.in_search,
        matching.len() <= usize::MAX,
    ensures
        step_model(s, matching, KeyInput::Char('q')) == (s, ActionModel::Quit),
        s.selected < matching.len() ==> step_model(s, matching, KeyInput::Char('d')).1 == ActionModel::Nothing
            && step_model(s, matching, KeyInput::Char('d')).0.confirm_delete
            && step_model(s, matching, KeyInput::Char('d')).0.delete_id == Some(matching[s.selected as int].0),
        s.selected < matching.len() ==> step_model(s, matching, KeyInput::Char('e')).1 == ActionModel::EditNote(
            matching[s.selected as int].0,
        ),
        s.selected < matching.len() ==> step_model(s, matching, KeyInput::Char('i')).1 == ActionModel::OpenImage(
            matching[s.selected as int].0,
        ),
        s.selected < matching.len() ==> step_model(s, matching, KeyInput::Char('a')).1 == ActionModel::AttachImage(
            matching[s.selected as int].0,
        ),
        s.selected + 1 < matching.len() ==> step_model(s, matching, KeyInput::Down).0.selected == s.selected + 1,
        s.selected + 1 >= matching.len() ==> step_model(s, matching, KeyInput::Down).0.selected == s.selected,
        s.selected > 0 ==> step_model(s, matching, KeyInput::Up).0.selected == s.selected - 1,
        s.selected == 0 ==> step_model(s, matching, KeyInput::Up).0.selected == 0,
{
}

/// With a deletion pending, `y` asks to delete the note that was to be
/// confirmed, and `n` or Esc cancel; either way nothing is pending after.
/// No other key does anything then.
pub proof fn law_confirming_a_deletion(s: BrowseModel, matching: Seq<MetaModel>, key: KeyInput, id: u64)
    requires
        s.confirm_delete,
        s.delete_id == Some(id),
    ensures
        step_model(s, matching, KeyInput::Char('y')).1 == ActionModel::DeleteNote(id),
        !step_model(s, matching, KeyInput::Char('y')).0.confirm_delete,
        step_model(s, matching, KeyInput::Char('n')).1 == ActionModel::Nothing,
        !step_model(s, matching, KeyInput::Char('n')).0.confirm_delete,
        step_model(s, matching, KeyInput::Esc).1 == ActionModel::Nothing,
        !step_model(s, matching, KeyInput::Esc).0.confirm_delete,
        key != KeyInput::Char('y') && key != KeyInput::Char('n') && key != KeyInput::Esc ==> step_model(
            s,
            matching,
            key,
        ) == (s, ActionModel::Nothing),
{
}

/// The descending list is the ascending list back to front.
pub proof fn law_descending_reverses(metas: Seq<MetaModel>, search: Seq<char>, mode: SortMode)
    ensures
        visible_model(metas, search, mode, true).len() == visible_model(metas, search, mode, false).len(),
        forall|i: int|
            0 <= i < visible_model(metas, search, mode, true).len() ==> #[trigger] visible_model(
                metas,
                search,
                mode,
                true,
            )[i] == visible_model(metas, search, mode, false)[visible_model(metas, search, mode, false).len()
                - 1 - i],
{
}

/// After an action: a failed one (other than quitting or nothing) shows its
/// message and changes nothing else; a created note ends the title typing
/// with an empty title and selects the last of the `n` listed notes; a
/// deletion keeps the selection inside the `n` notes left (the first row
/// when none is left).
pub proof fn law_after_outcomes(s: BrowseModel, action: ActionModel, msg: Seq<char>, n: nat, title: Seq<char>, id: u64)
    requires
        n <= usize::MAX,
    ensures
        !(action is Nothing) && !(action is Quit) ==> after_model(s, action, Err(msg)) == (BrowseModel {
            error: Some(msg),
            ..s
        }),
        n > 0 ==> after_model(s, ActionModel::CreateNote(title), Ok(n)).selected == n - 1,
        !after_model(s, ActionModel::CreateNote(title), Ok(n)).in_new,
        after_model(s, ActionModel::CreateNote(title), Ok(n)).new_title.len() == 0,
        (after_model(s, ActionModel::CreateNote(title), Ok(n)).error is None),
        n > 0 ==> after_model(s, ActionModel::DeleteNote(id), Ok(n)).selected < n,
        n > 0 && s.selected < n ==> after_model(s, ActionModel::DeleteNote(id), Ok(n)).selected == s.selected,
        n == 0 ==> after_model(s, ActionModel::DeleteNote(id), Ok(n)).selected == 0,
{
}

} // verus!
