//! The terminal program: its panes, and what the keys do.

use crate::browser::{
    as_ints, count_lines, filter_of, is_fetch, law_shown_lines, line_passes, lines_of, lower_filter,
    passes_filter, queue_rows, selected_files, selected_lines, visible, visible_lines, way, Crumb,
    Fetch, FileToQueue, QueueRow,
};
use crate::format::{count_of, counted};
use crate::listing::{listed, opt_text, ListEntry, ListRow};
use crate::queue::{jobs, jobs_among, remove_queue_sel, urls_of, Job, QueueJob};
use crate::search::{first_of, hits, hits_view, search, SearchData, SearchHit};
use crate::search_tab::path_of;
use crate::strmap::StrSet;
use crate::text::{
    chars_of, concat, concat3, contains_text, decimal, decimal_text, last_index_of, law_last_index,
    lowercase, occurs_in, same_text, segments, split_last, split_segments, string_of, texts,
    to_lower,
};
use crate::url_text::{loosely_decoded, url_decode_loose, BASE_URL};
use vstd::arithmetic::div_mod::{lemma_mod_self_0, lemma_small_mod};
use vstd::prelude::*;
use vstd::utf8::encode_utf8;

verus! {

/// The pane that has the keys.
#[derive(Clone, Copy, PartialEq, Eq, Structural)]
pub enum Pane {
    Browser,
    Queue,
}

/// A result of the terminal's search: its name and its path.
pub struct Found {
    pub name: String,
    pub path: String,
}

impl View for Found {
    type V = (Seq<char>, Seq<char>);

    open spec fn view(&self) -> (Seq<char>, Seq<char>) {
        (self.name@, self.path@)
    }
}

pub open spec fn found_view(list: Seq<Found>) -> Seq<(Seq<char>, Seq<char>)> {
    list.map_values(|f: Found| f@)
}

/// The terminal program.
pub struct Tui {
    pub current_path: String,
    pub crumbs: Vec<Crumb>,
    pub entries: Vec<ListEntry>,
    pub loading: bool,
    pub load_error: Option<String>,
    pub cursor: Option<usize>,
    pub selected: StrSet,
    pub downloaded: StrSet,
    pub queued: StrSet,
    pub filter_query: String,
    /// The filter is being typed.
    pub filtering: bool,
    pub queue_cursor: Option<usize>,
    pub queue_sel: StrSet,
    pub search_query: String,
    pub searching: bool,
    pub results: Vec<Found>,
    pub search_cursor: Option<usize>,
    pub pane: Pane,
    pub status_msg: String,
    pub paused: bool,
}

/// The state of the terminal program.
#[verifier::ext_equal]
pub struct TuiState {
    pub current_path: Seq<char>,
    pub crumbs: Seq<(Seq<char>, Seq<char>)>,
    pub entries: Seq<ListRow>,
    pub loading: bool,
    pub load_error: Option<Seq<char>>,
    pub cursor: Option<usize>,
    pub selected: Set<Seq<char>>,
    pub downloaded: Set<Seq<char>>,
    pub queued: Set<Seq<char>>,
    pub filter_query: Seq<char>,
    pub filtering: bool,
    pub queue_cursor: Option<usize>,
    pub queue_sel: Set<Seq<char>>,
    pub search_query: Seq<char>,
    pub searching: bool,
    pub results: Seq<(Seq<char>, Seq<char>)>,
    pub search_cursor: Option<usize>,
    pub pane: Pane,
    pub status_msg: Seq<char>,
    pub paused: bool,
}

impl View for Tui {
    type V = TuiState;

    open spec fn view(&self) -> TuiState {
        TuiState {
            current_path: self.current_path@,
            crumbs: way(self.crumbs@),
            entries: listed(self.entries@),
            loading: self.loading,
            load_error: opt_text(self.load_error),
            cursor: self.cursor,
            selected: self.selected@,
            downloaded: self.downloaded@,
            queued: self.queued@,
            filter_query: self.filter_query@,
            filtering: self.filtering,
            queue_cursor: self.queue_cursor,
            queue_sel: self.queue_sel@,
            search_query: self.search_query@,
            searching: self.searching,
            results: found_view(self.results@),
            search_cursor: self.search_cursor,
            pane: self.pane,
            status_msg: self.status_msg@,
            paused: self.paused,
        }
    }
}

// ── Moving a cursor ──────────────────────────────────────────────────────────
/// The cursor one line up in a list of `n`: from the first line to the last.
pub open spec fn moved_up(cursor: Option<usize>, n: nat) -> Option<usize> {
    if n == 0 {
        cursor
    } else {
        match cursor {
            Some(i) => if i == 0 {
                Some((n - 1) as usize)
            } else {
                Some((i - 1) as usize)
            },
            None => Some(0),
        }
    }
}

/// The cursor one line down in a list of `n`: from the last line to the first.
pub open spec fn moved_down(cursor: Option<usize>, n: nat) -> Option<usize> {
    if n == 0 {
        cursor
    } else {
        match cursor {
            Some(i) => Some(((i + 1) % n as int) as usize),
            None => Some(0),
        }
    }
}

/// The cursor one line up.
pub fn move_up(cursor: Option<usize>, n: usize) -> (moved: Option<usize>)
    ensures
        moved == moved_up(cursor, n as nat),
{
    if n == 0 {
        return cursor;
    }
    match cursor {
        Some(i) => if i == 0 {
            Some(n - 1)
        } else {
            Some(i - 1)
        },
        None => Some(0),
    }
}

/// The cursor one line down.
pub fn move_down(cursor: Option<usize>, n: usize) -> (moved: Option<usize>)
    requires
        cursor matches Some(i) ==> i < usize::MAX,
    ensures
        moved == moved_down(cursor, n as nat),
{
    if n == 0 {
        return cursor;
    }
    match cursor {
        Some(i) => Some((i + 1) % n),
        None => Some(0),
    }
}

/// One line up takes back one line down, and the other way round.
pub proof fn law_up_undoes_down(i: usize, n: nat)
    requires
        i < n <= usize::MAX,
    ensures
        moved_up(moved_down(Some(i), n), n) == Some(i),
        moved_down(moved_up(Some(i), n), n) == Some(i),
{
    if i + 1 == n {
        assert((i + 1) % n as int == 0) by (nonlinear_arith)
            requires
                i + 1 == n,
                n > 0,
        ;
    } else {
        assert((i + 1) % n as int == i + 1) by (nonlinear_arith)
            requires
                0 <= i + 1 < n,
        ;
    }
    if i == 0 {
        assert((n - 1 + 1) % n as int == 0) by (nonlinear_arith)
            requires
                n > 0,
        ;
    } else {
        assert((i - 1 + 1) % n as int == i) by (nonlinear_arith)
            requires
                0 <= i < n,
        ;
    }
}

// ── Navigation ───────────────────────────────────────────────────────────────
impl TuiState {
    pub open spec fn navigated(self, path: Seq<char>) -> TuiState {
        TuiState {
            current_path: path,
            entries: Seq::empty(),
            load_error: None,
            loading: true,
            selected: Set::empty(),
            cursor: None,
            ..self
        }
    }

    /// Where the last crumb leads: to the root where there is none.
    pub open spec fn tail_path(self) -> Seq<char> {
        if self.crumbs.len() == 0 {
            Seq::empty()
        } else {
            self.crumbs.last().1
        }
    }

    pub open spec fn search_left(self) -> TuiState {
        TuiState {
            searching: false,
            search_query: Seq::empty(),
            results: Seq::empty(),
            ..self
        }
    }

    /// After a folder's lines came. What belongs to another folder is dropped.
    pub open spec fn after_lines(self, path: Seq<char>, entries: Seq<ListRow>) -> TuiState {
        if path != self.current_path {
            self
        } else {
            TuiState {
                loading: false,
                status_msg: decimal(lines_of(entries, true)) + " folders  "@ + decimal(
                    lines_of(entries, false),
                ) + "  files"@,
                entries,
                ..self
            }
        }
    }

    pub open spec fn after_error(self, path: Seq<char>, error: Seq<char>) -> TuiState {
        if path != self.current_path {
            self
        } else {
            TuiState {
                loading: false,
                load_error: Some(error),
                status_msg: "Error: "@ + error,
                ..self
            }
        }
    }
}

impl Tui {
    pub open spec fn wf(&self) -> bool {
        &&& self.selected.wf()
        &&& self.downloaded.wf()
        &&& self.queued.wf()
        &&& self.queue_sel.wf()
    }

    /// The program at the start.
    pub fn new(downloaded: StrSet, queued: StrSet, paused: bool) -> (tui: Self)
        requires
            downloaded.wf(),
            queued.wf(),
        ensures
            tui.wf(),
            tui@ == (TuiState {
                current_path: Seq::empty(),
                crumbs: Seq::empty(),
                entries: Seq::empty(),
                loading: false,
                load_error: None,
                cursor: None,
                selected: Set::empty(),
                downloaded: downloaded@,
                queued: queued@,
                filter_query: Seq::empty(),
                filtering: false,
                queue_cursor: None,
                queue_sel: Set::empty(),
                search_query: Seq::empty(),
                searching: false,
                results: Seq::empty(),
                search_cursor: None,
                pane: Pane::Browser,
                status_msg: "Ready"@,
                paused,
            }),
    {
        Tui {
            current_path: String::new(),
            crumbs: Vec::new(),
            entries: Vec::new(),
            loading: false,
            load_error: None,
            cursor: None,
            selected: StrSet::new(),
            downloaded,
            queued,
            filter_query: String::new(),
            filtering: false,
            queue_cursor: None,
            queue_sel: StrSet::new(),
            search_query: String::new(),
            searching: false,
            results: Vec::new(),
            search_cursor: None,
            pane: Pane::Browser,
            status_msg: "Ready".to_owned(),
            paused,
        }
    }

    /// Goes to a folder.
    pub fn navigate(&mut self, path: String) -> (fetch: Fetch)
        requires
            old(self).wf(),
        ensures
            final(self).wf(),
            final(self)@ == old(self)@.navigated(path@),
            is_fetch(fetch, path@, false),
    {
        let fetch = Fetch { url: concat(BASE_URL, path.as_str()), path: path.clone(), force: false };
        self.current_path = path;
        self.entries = Vec::new();
        self.load_error = None;
        self.loading = true;
        self.selected.clear();
        self.cursor = None;
        assert(self@ =~= old(self)@.navigated(path@));
        fetch
    }

    /// A folder's lines came.
    pub fn take_lines(&mut self, path: &str, entries: Vec<ListEntry>)
        requires
            old(self).wf(),
        ensures
            final(self).wf(),
            final(self)@ == old(self)@.after_lines(path@, listed(entries@)),
    {
        if !same_text(path, self.current_path.as_str()) {
            return;
        }
        self.loading = false;
        let folders = decimal_text(count_lines(&entries, true) as u64);
        let files = decimal_text(count_lines(&entries, false) as u64);
        let head = concat3(folders.as_str(), " folders  ", files.as_str());
        self.status_msg = concat(head.as_str(), "  files");
        self.entries = entries;
        assert(self@ =~= old(self)@.after_lines(path@, listed(entries@)));
    }

    /// A folder could not be had.
    pub fn take_error(&mut self, path: &str, error: String)
        requires
            old(self).wf(),
        ensures
            final(self).wf(),
            final(self)@ == old(self)@.after_error(path@, error@),
    {
        if !same_text(path, self.current_path.as_str()) {
            return;
        }
        self.loading = false;
        self.status_msg = concat("Error: ", error.as_str());
        self.load_error = Some(error);
        assert(self@ =~= old(self)@.after_error(path@, error@));
    }

    fn tail(&self) -> (path: String)
        ensures
            path@ == self@.tail_path(),
    {
        let n: usize = self.crumbs.len();
        if n == 0 {
            let root = String::new();
            assert(root@ =~= Seq::<char>::empty());
            root
        } else {
            assert(self@.crumbs.last() == self.crumbs@[n - 1]@);
            self.crumbs[n - 1].path.clone()
        }
    }

    fn leave_search(&mut self)
        requires
            old(self).wf(),
        ensures
            final(self).wf(),
            final(self)@ == old(self)@.search_left(),
    {
        self.searching = false;
        self.search_query = String::new();
        self.results = Vec::new();
        assert(self@ =~= old(self)@.search_left());
    }
}

// ── Searching ────────────────────────────────────────────────────────────────
/// The most results that the terminal keeps.
pub const MAX_FOUND: usize = 300;

/// A hit as the terminal keeps it.
pub open spec fn found_of(hit: SearchHit) -> (Seq<char>, Seq<char>) {
    (hit.name, hit.folder + "/"@ + hit.name)
}

/// The open folder's files whose name holds `q`.
pub open spec fn files_with(entries: Seq<ListRow>, q: Seq<char>) -> Seq<(Seq<char>, Seq<char>)>
    decreases entries.len(),
{
    if entries.len() == 0 {
        Seq::empty()
    } else {
        let head = files_with(entries.drop_last(), q);
        let e = entries.last();
        if !e.is_folder && occurs_in(q, lowercase(e.name)) {
            head.push((e.name, e.href))
        } else {
            head
        }
    }
}

/// What the terminal's search finds: files of the whole index, where it knows any folder, else
/// files of the open folder.
pub open spec fn terminal_results(
    q: Seq<char>,
    entries: Seq<ListRow>,
    folders: nat,
    slot: Option<SearchData>,
) -> Seq<(Seq<char>, Seq<char>)> {
    if folders > 0 {
        match slot {
            Some(data) => first_of(hits(data@, lowercase(q)), MAX_FOUND as nat).map_values(
                |h: SearchHit| found_of(h),
            ),
            None => Seq::empty(),
        }
    } else {
        files_with(entries, q)
    }
}

impl TuiState {
    /// After the query has changed.
    pub open spec fn searched(self, folders: nat, slot: Option<SearchData>) -> TuiState {
        if self.search_query.len() == 0 {
            TuiState { results: Seq::empty(), ..self }
        } else {
            let results = terminal_results(lowercase(self.search_query), self.entries, folders, slot);
            TuiState {
                results,
                search_cursor: if results.len() > 0 {
                    Some(0)
                } else {
                    None
                },
                ..self
            }
        }
    }
}

fn find_in_index(q: &str, slot: &Option<SearchData>) -> (found: Vec<Found>)
    ensures
        found_view(found@) == match *slot {
            Some(data) => first_of(hits(data@, lowercase(q@)), MAX_FOUND as nat).map_values(
                |h: SearchHit| found_of(h),
            ),
            None => Seq::empty(),
        },
{
    let list = search(slot, q);
    let ghost all = hits_view(list@);
    let mut found: Vec<Found> = Vec::new();
    let mut i: usize = 0;
    while i < list.len() && i < MAX_FOUND
        invariant
            all == hits_view(list@),
            i <= list@.len(),
            i <= MAX_FOUND,
            found@.len() == i,
            forall|k: int| 0 <= k < i ==> (#[trigger] found@[k])@ == found_of(all[k]),
        decreases list@.len() - i,
    {
        let e = &list[i];
        assert(all[i as int] == e@);
        found.push(Found { name: e.name.clone(), path: concat3(e.folder, "/", e.name.as_str()) });
        i = i + 1;
    }
    proof {
        if slot is Some {
            assert(found_view(found@) =~= first_of(all, MAX_FOUND as nat).map_values(
                |h: SearchHit| found_of(h),
            ));
        } else {
            assert(all.len() == list@.len());
            assert(found_view(found@) =~= Seq::<(Seq<char>, Seq<char>)>::empty());
        }
    }
    found
}

fn find_in_folder(q: &str, entries: &Vec<ListEntry>) -> (found: Vec<Found>)
    ensures
        found_view(found@) == files_with(listed(entries@), q@),
{
    let ghost view = listed(entries@);
    let mut found: Vec<Found> = Vec::new();
    let mut i: usize = 0;
    assert(found_view(found@) =~= Seq::<(Seq<char>, Seq<char>)>::empty());
    while i < entries.len()
        invariant
            view == listed(entries@),
            i <= entries@.len(),
            found_view(found@) == files_with(view.take(i as int), q@),
        decreases entries@.len() - i,
    {
        let e = &entries[i];
        let ghost before = found_view(found@);
        proof {
            assert(view.take(i + 1).drop_last() =~= view.take(i as int));
            assert(view.take(i + 1).last() == e@);
        }
        if !e.is_folder {
            let lower = to_lower(e.name.as_str());
            if contains_text(lower.as_str(), q) {
                let f = Found { name: e.name.clone(), path: e.href.clone() };
                let ghost r = f@;
                found.push(f);
                assert(found_view(found@) =~= before.push(r));
            }
        }
        i = i + 1;
    }
    assert(view.take(entries@.len() as int) =~= view);
    found
}

impl Tui {
    /// The query has changed. `folders` is how many folders the index knows.
    pub fn do_search(&mut self, folders: usize, slot: &Option<SearchData>)
        requires
            old(self).wf(),
        ensures
            final(self).wf(),
            final(self)@ == old(self)@.searched(folders as nat, *slot),
    {
        if self.search_query.as_str().unicode_len() == 0 {
            self.results = Vec::new();
            assert(self@ =~= old(self)@.searched(folders as nat, *slot));
            return;
        }
        let q = to_lower(self.search_query.as_str());
        self.results = if folders > 0 {
            find_in_index(q.as_str(), slot)
        } else {
            find_in_folder(q.as_str(), &self.entries)
        };
        self.search_cursor = if self.results.len() > 0 {
            Some(0)
        } else {
            None
        };
        assert(self@ =~= old(self)@.searched(folders as nat, *slot));
    }
}

// ── What the keys do ─────────────────────────────────────────────────────────
/// A key.
pub enum Key {
    Esc,
    Enter,
    Backspace,
    Up,
    Down,
    Left,
    Right,
    Tab,
    Char(char),
    Other,
}

/// What is to be done after a key.
pub enum TuiAction {
    Nothing,
    Quit,
    Fetch(Fetch),
    /// Queue the files, as files of the open folder.
    Queue(Vec<FileToQueue>),
    SaveQueue,
    /// Save the settings, and look for waiting jobs where the queue runs.
    SaveSettings,
}

#[verifier::ext_equal]
pub enum TuiOrder {
    Nothing,
    Quit,
    Fetch(Seq<char>),
    Queue(Seq<QueueRow>),
    SaveQueue,
    SaveSettings,
}

pub open spec fn carries_out(action: TuiAction, order: TuiOrder) -> bool {
    match order {
        TuiOrder::Nothing => action is Nothing,
        TuiOrder::Quit => action is Quit,
        TuiOrder::Fetch(path) => action matches TuiAction::Fetch(fetch) && is_fetch(
            fetch,
            path,
            false,
        ),
        TuiOrder::Queue(files) => action matches TuiAction::Queue(list) && queue_rows(list@)
            == files,
        TuiOrder::SaveQueue => action is SaveQueue,
        TuiOrder::SaveSettings => action is SaveSettings,
    }
}

/// The way to a result's folder: the steps show decoded segments.
pub open spec fn loose_steps(raw: Seq<Seq<char>>) -> Seq<(Seq<char>, Seq<char>)>
    decreases raw.len(),
{
    if raw.len() == 0 {
        Seq::empty()
    } else {
        loose_steps(raw.drop_last()).push(
            (loosely_decoded(encode_utf8(raw.last())), path_of(raw)),
        )
    }
}

/// What stands before the last slash; nothing where there is none.
pub open spec fn parent_of(path: Seq<char>) -> Seq<char> {
    match last_index_of(path, '/') {
        Some(i) => path.take(i),
        None => Seq::empty(),
    }
}

/// The texts without the last character.
pub open spec fn popped(text: Seq<char>) -> Seq<char> {
    if text.len() == 0 {
        text
    } else {
        text.drop_last()
    }
}

fn pop_char(text: &str) -> (rest: String)
    ensures
        rest@ == popped(text@),
{
    let chars = chars_of(text);
    let n: usize = chars.len();
    let rest = string_of(&chars, 0, if n == 0 {
        0
    } else {
        n - 1
    });
    assert(rest@ =~= popped(text@));
    rest
}

fn push_char(text: &str, c: char) -> (longer: String)
    ensures
        longer@ == text@.push(c),
{
    let mut longer = text.to_owned();
    longer.push(c);
    longer
}

fn loose_crumbs(folder: &str) -> (crumbs: Vec<Crumb>)
    ensures
        way(crumbs@) == loose_steps(segments(folder@)),
{
    let raw = split_segments(folder);
    let ghost r = texts(raw@);
    let mut crumbs: Vec<Crumb> = Vec::new();
    let mut path = String::new();
    let mut i: usize = 0;
    assert(way(crumbs@) =~= Seq::<(Seq<char>, Seq<char>)>::empty());
    assert(path@ =~= path_of(r.take(0)));
    while i < raw.len()
        invariant
            r == texts(raw@),
            i <= raw@.len(),
            way(crumbs@) == loose_steps(r.take(i as int)),
            path@ == path_of(r.take(i as int)),
        decreases raw@.len() - i,
    {
        let ghost before = way(crumbs@);
        proof {
            assert(r.take(i + 1).drop_last() =~= r.take(i as int));
            assert(r.take(i + 1).last() == raw@[i as int]@);
        }
        path = concat3(path.as_str(), raw[i].as_str(), "/");
        let crumb = Crumb { label: url_decode_loose(raw[i].as_str()), path: path.clone() };
        let ghost c = crumb@;
        crumbs.push(crumb);
        assert(way(crumbs@) =~= before.push(c));
        i = i + 1;
    }
    assert(r.take(raw@.len() as int) =~= r);
    crumbs
}

impl TuiState {
    /// The positions of the lines that are shown: those that pass the filter, in their order.
    pub open spec fn shown(self) -> Seq<int> {
        visible_lines(self.entries, filter_of(self.filter_query))
    }

    /// The line under the cursor, which counts the lines that are shown.
    pub open spec fn line_at_cursor(self) -> Option<ListRow> {
        match self.cursor {
            Some(i) => if i < self.shown().len() {
                Some(self.entries[self.shown()[i as int]])
            } else {
                None
            },
            None => None,
        }
    }

    /// Enter on a result: to its folder.
    pub open spec fn entered_result(self) -> (TuiState, TuiOrder) {
        match self.search_cursor {
            Some(i) => if i < self.results.len() {
                let left = TuiState {
                    crumbs: loose_steps(segments(parent_of(self.results[i as int].1))),
                    ..self
                }.search_left();
                (left.navigated(left.tail_path()), TuiOrder::Fetch(left.tail_path()))
            } else {
                (self, TuiOrder::Nothing)
            },
            None => (self, TuiOrder::Nothing),
        }
    }

    /// Enter on a line: into a folder, or a file into the queue.
    pub open spec fn entered_line(self) -> (TuiState, TuiOrder) {
        match self.line_at_cursor() {
            Some(e) => if e.is_folder {
                let path = self.current_path + e.href;
                (
                    (TuiState { crumbs: self.crumbs.push((e.name, path)), ..self }).navigated(path),
                    TuiOrder::Fetch(path),
                )
            } else {
                match e.url {
                    Some(u) => if self.queued.contains(u) {
                        (self, TuiOrder::Nothing)
                    } else {
                        (
                            TuiState { status_msg: "Queued: "@ + e.name, ..self },
                            TuiOrder::Queue(seq![QueueRow { url: u, name: e.name, size: e.size }]),
                        )
                    },
                    None => (self, TuiOrder::Nothing),
                }
            },
            None => (self, TuiOrder::Nothing),
        }
    }

    pub open spec fn entered(self) -> (TuiState, TuiOrder) {
        if self.searching {
            self.entered_result()
        } else {
            self.entered_line()
        }
    }

    /// One folder up.
    pub open spec fn went_back(self) -> (TuiState, TuiOrder) {
        let up = TuiState {
            crumbs: if self.crumbs.len() == 0 {
                self.crumbs
            } else {
                self.crumbs.drop_last()
            },
            ..self
        };
        (up.navigated(up.tail_path()), TuiOrder::Fetch(up.tail_path()))
    }

    /// The line under the cursor is selected, or deselected.
    pub open spec fn toggled(self) -> TuiState {
        match self.line_at_cursor() {
            Some(e) => match e.url {
                Some(u) => if e.is_folder {
                    self
                } else if self.selected.contains(u) {
                    TuiState { selected: self.selected.remove(u), ..self }
                } else if !self.queued.contains(u) && !self.downloaded.contains(u) {
                    TuiState { selected: self.selected.insert(u), ..self }
                } else {
                    self
                },
                None => self,
            },
            None => self,
        }
    }

    /// The job under the cursor is selected, or deselected.
    pub open spec fn toggled_job(self, queue: Seq<Job>) -> TuiState {
        match self.queue_cursor {
            Some(i) => if i < queue.len() {
                let id = queue[i as int].id;
                TuiState {
                    queue_sel: if self.queue_sel.contains(id) {
                        self.queue_sel.remove(id)
                    } else {
                        self.queue_sel.insert(id)
                    },
                    ..self
                }
            } else {
                self
            },
            None => self,
        }
    }

    /// All visible files that are neither queued nor downloaded are selected.
    pub open spec fn all_selected(self) -> TuiState {
        TuiState {
            selected: self.selected.union(
                free_urls(
                    self.entries,
                    filter_of(self.filter_query),
                    self.queued,
                    self.downloaded,
                ).to_set(),
            ),
            ..self
        }
    }

    /// The selected files go to the queue.
    pub open spec fn queued_selection(self) -> (TuiState, TuiOrder) {
        let files = selected_lines(self.entries, self.selected, self.queued);
        (
            TuiState {
                selected: Set::empty(),
                status_msg: "Queued "@ + counted(files.len(), "file"@, "s"@),
                ..self
            },
            TuiOrder::Queue(files),
        )
    }

    pub open spec fn plain(self) -> (TuiState, TuiOrder) {
        (self, TuiOrder::Nothing)
    }

    /// A key while the filter is typed.
    pub open spec fn filter_key(self, key: Key) -> (TuiState, TuiOrder) {
        match key {
            Key::Esc => (TuiState {
                filtering: false,
                filter_query: Seq::empty(),
                ..self
            }).plain(),
            Key::Enter => (TuiState { filtering: false, ..self }).plain(),
            Key::Backspace => (TuiState {
                filter_query: popped(self.filter_query),
                cursor: Some(0),
                ..self
            }).plain(),
            Key::Char(c) => (TuiState {
                filter_query: self.filter_query.push(c),
                cursor: Some(0),
                ..self
            }).plain(),
            _ => self.plain(),
        }
    }

    /// A key while the search is typed.
    pub open spec fn search_key(self, key: Key, folders: nat, slot: Option<SearchData>) -> (
        TuiState,
        TuiOrder,
    ) {
        let up = (TuiState {
            search_cursor: moved_up(self.search_cursor, self.results.len()),
            ..self
        }).plain();
        let down = (TuiState {
            search_cursor: moved_down(self.search_cursor, self.results.len()),
            ..self
        }).plain();
        match key {
            Key::Esc => self.search_left().plain(),
            Key::Enter => self.entered(),
            Key::Up => up,
            Key::Down => down,
            Key::Backspace => (TuiState {
                search_query: popped(self.search_query),
                ..self
            }).searched(folders, slot).plain(),
            Key::Char(c) => if c == 'k' {
                up
            } else if c == 'j' {
                down
            } else {
                (TuiState { search_query: self.search_query.push(c), ..self }).searched(
                    folders,
                    slot,
                ).plain()
            },
            _ => self.plain(),
        }
    }

    pub open spec fn up(self, queue: Seq<Job>) -> TuiState {
        if self.pane is Browser {
            TuiState { cursor: moved_up(self.cursor, self.shown().len()), ..self }
        } else {
            TuiState { queue_cursor: moved_up(self.queue_cursor, queue.len()), ..self }
        }
    }

    pub open spec fn down(self, queue: Seq<Job>) -> TuiState {
        if self.pane is Browser {
            TuiState { cursor: moved_down(self.cursor, self.shown().len()), ..self }
        } else {
            TuiState { queue_cursor: moved_down(self.queue_cursor, queue.len()), ..self }
        }
    }

    pub open spec fn open_key(self) -> (TuiState, TuiOrder) {
        if self.pane is Browser {
            self.entered()
        } else {
            self.plain()
        }
    }

    pub open spec fn back_key(self) -> (TuiState, TuiOrder) {
        if self.pane is Browser && self.crumbs.len() > 0 {
            self.went_back()
        } else {
            self.plain()
        }
    }

    /// A letter, outside of the filter and the search.
    pub open spec fn letter(self, c: char, shift: bool, queue: Seq<Job>) -> (TuiState, TuiOrder) {
        if c == 'Q' || (c == 'q' && shift) {
            (self, TuiOrder::Quit)
        } else if c == 'k' {
            self.up(queue).plain()
        } else if c == 'j' {
            self.down(queue).plain()
        } else if c == 'l' {
            self.open_key()
        } else if c == 'h' {
            self.back_key()
        } else if c == ' ' {
            if self.pane is Browser {
                self.toggled().plain()
            } else {
                self.toggled_job(queue).plain()
            }
        } else if c == 'a' {
            if self.pane is Browser {
                self.all_selected().plain()
            } else {
                self.plain()
            }
        } else if c == 'A' {
            (TuiState { selected: Set::empty(), queue_sel: Set::empty(), ..self }).plain()
        } else if c == 'q' {
            if self.pane is Browser {
                self.queued_selection()
            } else {
                self.plain()
            }
        } else if c == 'x' {
            if self.pane is Queue && self.queue_sel != Set::<Seq<char>>::empty() {
                (
                    TuiState {
                        queued: self.queued.intersect(
                            urls_of(jobs_among(queue, self.queue_sel, false)).to_set(),
                        ),
                        queue_sel: Set::empty(),
                        ..self
                    },
                    TuiOrder::SaveQueue,
                )
            } else {
                self.plain()
            }
        } else if c == '/' {
            (TuiState { searching: true, search_query: Seq::empty(), ..self }).plain()
        } else if c == 'f' {
            if self.pane is Browser {
                (TuiState {
                    filtering: true,
                    filter_query: Seq::empty(),
                    cursor: Some(0),
                    ..self
                }).plain()
            } else {
                self.plain()
            }
        } else if c == 's' {
            (
                TuiState {
                    paused: !self.paused,
                    status_msg: if self.paused {
                        "Queue started"@
                    } else {
                        "Queue paused"@
                    },
                    ..self
                },
                TuiOrder::SaveSettings,
            )
        } else {
            self.plain()
        }
    }

    /// A key.
    pub open spec fn after_key(
        self,
        key: Key,
        shift: bool,
        queue: Seq<Job>,
        folders: nat,
        slot: Option<SearchData>,
    ) -> (TuiState, TuiOrder) {
        if self.filtering {
            self.filter_key(key)
        } else if self.searching {
            self.search_key(key, folders, slot)
        } else {
            match key {
                Key::Tab => (TuiState {
                    pane: if self.pane is Browser {
                        Pane::Queue
                    } else {
                        Pane::Browser
                    },
                    ..self
                }).plain(),
                Key::Up => self.up(queue).plain(),
                Key::Down => self.down(queue).plain(),
                Key::Enter | Key::Right => self.open_key(),
                Key::Backspace | Key::Left => self.back_key(),
                Key::Esc => (TuiState { filter_query: Seq::empty(), ..self }).plain(),
                Key::Char(c) => self.letter(c, shift, queue),
                Key::Other => self.plain(),
            }
        }
    }

    /// Whether the key removes the selected jobs from the queue.
    pub open spec fn removes_jobs(self, key: Key) -> bool {
        &&& !self.filtering && !self.searching
        &&& key == Key::Char('x')
        &&& self.pane is Queue
        &&& self.queue_sel != Set::<Seq<char>>::empty()
    }
}

/// The URLs of the files that pass the filter and are neither queued nor downloaded.
pub open spec fn free_urls(
    entries: Seq<ListRow>,
    filter: Seq<char>,
    queued: Set<Seq<char>>,
    downloaded: Set<Seq<char>>,
) -> Seq<Seq<char>>
    decreases entries.len(),
{
    if entries.len() == 0 {
        Seq::empty()
    } else {
        let head = free_urls(entries.drop_last(), filter, queued, downloaded);
        let e = entries.last();
        match e.url {
            Some(u) => if !e.is_folder && passes_filter(e, filter) && !queued.contains(u)
                && !downloaded.contains(u) {
                head.push(u)
            } else {
                head
            },
            None => head,
        }
    }
}

fn find_free(entries: &Vec<ListEntry>, query: &str, queued: &StrSet, downloaded: &StrSet) -> (urls:
    Vec<String>)
    requires
        queued.wf(),
        downloaded.wf(),
    ensures
        texts(urls@) == free_urls(listed(entries@), filter_of(query@), queued@, downloaded@),
{
    let ghost view = listed(entries@);
    let filter = lower_filter(query);
    let mut urls: Vec<String> = Vec::new();
    let mut i: usize = 0;
    assert(texts(urls@) =~= Seq::<Seq<char>>::empty());
    while i < entries.len()
        invariant
            view == listed(entries@),
            queued.wf(),
            downloaded.wf(),
            i <= entries@.len(),
            texts(urls@) == free_urls(view.take(i as int), filter@, queued@, downloaded@),
        decreases entries@.len() - i,
    {
        let e = &entries[i];
        let ghost before = texts(urls@);
        proof {
            assert(view.take(i + 1).drop_last() =~= view.take(i as int));
            assert(view.take(i + 1).last() == e@);
        }
        match &e.url {
            Some(u) => {
                if !e.is_folder && line_passes(e, filter.as_str()) && !queued.contains(u.as_str())
                    && !downloaded.contains(u.as_str()) {
                    urls.push(u.clone());
                    assert(texts(urls@) =~= before.push(u@));
                }
            },
            None => {},
        }
        i = i + 1;
    }
    assert(view.take(entries@.len() as int) =~= view);
    urls
}

impl Tui {
    fn enter_result(&mut self) -> (action: TuiAction)
        requires
            old(self).wf(),
        ensures
            final(self).wf(),
            final(self)@ == old(self)@.entered_result().0,
            carries_out(action, old(self)@.entered_result().1),
    {
        let i: usize = match self.search_cursor {
            Some(i) => i,
            None => {
                return TuiAction::Nothing;
            },
        };
        if i >= self.results.len() {
            return TuiAction::Nothing;
        }
        assert(self@.results[i as int] == self.results@[i as int]@);
        let parent: String = match split_last(self.results[i].path.as_str(), '/') {
            Some((p, _)) => p,
            None => String::new(),
        };
        assert(parent@ =~= parent_of(old(self)@.results[i as int].1));
        self.crumbs = loose_crumbs(parent.as_str());
        self.leave_search();
        let path = self.tail();
        TuiAction::Fetch(self.navigate(path))
    }

    fn line_under_cursor(&self) -> (line: Option<ListEntry>)
        ensures
            match line {
                Some(e) => self@.line_at_cursor() == Some(e@),
                None => self@.line_at_cursor() is None,
            },
    {
        let i: usize = match self.cursor {
            Some(i) => i,
            None => {
                return None;
            },
        };
        let shown = visible(&self.entries, self.filter_query.as_str());
        assert(as_ints(shown@).len() == shown@.len());
        if i >= shown.len() {
            return None;
        }
        let at: usize = shown[i];
        proof {
            assert(as_ints(shown@)[i as int] == at);
            law_shown_lines(listed(self.entries@), filter_of(self.filter_query@));
        }
        Some(self.entries[at].clone())
    }

    fn enter_line(&mut self) -> (action: TuiAction)
        requires
            old(self).wf(),
        ensures
            final(self).wf(),
            final(self)@ == old(self)@.entered_line().0,
            carries_out(action, old(self)@.entered_line().1),
    {
        let e: ListEntry = match self.line_under_cursor() {
            Some(e) => e,
            None => {
                return TuiAction::Nothing;
            },
        };
        if e.is_folder {
            let path = concat(self.current_path.as_str(), e.href.as_str());
            self.crumbs.push(Crumb { label: e.name.clone(), path: path.clone() });
            assert(way(self.crumbs@) =~= old(self)@.crumbs.push((e@.name, path@)));
            TuiAction::Fetch(self.navigate(path))
        } else {
            match e.url {
                Some(u) => {
                    if self.queued.contains(u.as_str()) {
                        TuiAction::Nothing
                    } else {
                        self.status_msg = concat("Queued: ", e.name.as_str());
                        let mut list: Vec<FileToQueue> = Vec::new();
                        list.push(FileToQueue { url: u, name: e.name, size: e.size });
                        assert(queue_rows(list@) =~= seq![
                            QueueRow { url: u@, name: e.name@, size: e.size@ },
                        ]);
                        assert(self@ =~= old(self)@.entered_line().0);
                        TuiAction::Queue(list)
                    }
                },
                None => TuiAction::Nothing,
            }
        }
    }

    fn enter(&mut self) -> (action: TuiAction)
        requires
            old(self).wf(),
        ensures
            final(self).wf(),
            final(self)@ == old(self)@.entered().0,
            carries_out(action, old(self)@.entered().1),
    {
        if self.searching {
            self.enter_result()
        } else {
            self.enter_line()
        }
    }

    fn back(&mut self) -> (action: TuiAction)
        requires
            old(self).wf(),
        ensures
            final(self).wf(),
            final(self)@ == old(self)@.went_back().0,
            carries_out(action, old(self)@.went_back().1),
    {
        let _ = self.crumbs.pop();
        proof {
            if old(self).crumbs@.len() > 0 {
                assert(way(self.crumbs@) =~= old(self)@.crumbs.drop_last());
            } else {
                assert(way(self.crumbs@) =~= old(self)@.crumbs);
            }
        }
        let path = self.tail();
        TuiAction::Fetch(self.navigate(path))
    }

    fn toggle(&mut self)
        requires
            old(self).wf(),
        ensures
            final(self).wf(),
            final(self)@ == old(self)@.toggled(),
    {
        let e: ListEntry = match self.line_under_cursor() {
            Some(e) => e,
            None => {
                return;
            },
        };
        if e.is_folder {
            return;
        }
        match e.url {
            Some(u) => {
                if self.selected.contains(u.as_str()) {
                    self.selected.remove(u.as_str());
                } else if !self.queued.contains(u.as_str()) && !self.downloaded.contains(
                    u.as_str(),
                ) {
                    self.selected.insert(u);
                }
            },
            None => {},
        }
        assert(self@ =~= old(self)@.toggled());
    }

    fn toggle_job(&mut self, queue: &Vec<QueueJob>)
        requires
            old(self).wf(),
        ensures
            final(self).wf(),
            final(self)@ == old(self)@.toggled_job(jobs(queue@)),
    {
        let i: usize = match self.queue_cursor {
            Some(i) => i,
            None => {
                return;
            },
        };
        if i >= queue.len() {
            return;
        }
        assert(jobs(queue@)[i as int] == queue@[i as int]@);
        let id = queue[i].id.clone();
        if !self.queue_sel.remove(id.as_str()) {
            self.queue_sel.insert(id);
            assert(self@.queue_sel =~= old(self)@.queue_sel.insert(id@));
        }
        assert(self@ =~= old(self)@.toggled_job(jobs(queue@)));
    }

    fn select_visible(&mut self)
        requires
            old(self).wf(),
        ensures
            final(self).wf(),
            final(self)@ == old(self)@.all_selected(),
    {
        let urls = find_free(
            &self.entries,
            self.filter_query.as_str(),
            &self.queued,
            &self.downloaded,
        );
        self.selected.insert_all(&urls);
        assert(self@ =~= old(self)@.all_selected());
    }

    fn queue_selection(&mut self) -> (action: TuiAction)
        requires
            old(self).wf(),
        ensures
            final(self).wf(),
            final(self)@ == old(self)@.queued_selection().0,
            carries_out(action, old(self)@.queued_selection().1),
    {
        let files = selected_files(&self.entries, &self.selected, &self.queued);
        self.selected.clear();
        self.status_msg = concat("Queued ", count_of(files.len(), "file", "s").as_str());
        assert(queue_rows(files@).len() == files@.len());
        assert(self@ =~= old(self)@.queued_selection().0);
        TuiAction::Queue(files)
    }

    fn on_filter_key(&mut self, key: Key) -> (action: TuiAction)
        requires
            old(self).wf(),
        ensures
            final(self).wf(),
            final(self)@ == old(self)@.filter_key(key).0,
            carries_out(action, old(self)@.filter_key(key).1),
    {
        match key {
            Key::Esc => {
                self.filtering = false;
                self.filter_query = String::new();
            },
            Key::Enter => {
                self.filtering = false;
            },
            Key::Backspace => {
                self.filter_query = pop_char(self.filter_query.as_str());
                self.cursor = Some(0);
            },
            Key::Char(c) => {
                self.filter_query = push_char(self.filter_query.as_str(), c);
                self.cursor = Some(0);
            },
            _ => {},
        }
        assert(self@ =~= old(self)@.filter_key(key).0);
        TuiAction::Nothing
    }

    fn search_up(&mut self)
        requires
            old(self).wf(),
        ensures
            final(self).wf(),
            final(self)@ == (TuiState {
                search_cursor: moved_up(old(self)@.search_cursor, old(self)@.results.len()),
                ..old(self)@
            }),
    {
        self.search_cursor = move_up(self.search_cursor, self.results.len());
    }

    fn search_down(&mut self)
        requires
            old(self).wf(),
            old(self).search_cursor matches Some(i) ==> i < usize::MAX,
        ensures
            final(self).wf(),
            final(self)@ == (TuiState {
                search_cursor: moved_down(old(self)@.search_cursor, old(self)@.results.len()),
                ..old(self)@
            }),
    {
        self.search_cursor = move_down(self.search_cursor, self.results.len());
    }

    fn on_search_key(&mut self, key: Key, folders: usize, slot: &Option<SearchData>) -> (action:
        TuiAction)
        requires
            old(self).wf(),
            old(self).search_cursor matches Some(i) ==> i < usize::MAX,
        ensures
            final(self).wf(),
            final(self)@ == old(self)@.search_key(key, folders as nat, *slot).0,
            carries_out(action, old(self)@.search_key(key, folders as nat, *slot).1),
    {
        match key {
            Key::Esc => {
                self.leave_search();
                TuiAction::Nothing
            },
            Key::Enter => self.enter(),
            Key::Up => {
                self.search_up();
                TuiAction::Nothing
            },
            Key::Down => {
                self.search_down();
                TuiAction::Nothing
            },
            Key::Backspace => {
                self.search_query = pop_char(self.search_query.as_str());
                assert(self@ =~= (TuiState {
                    search_query: popped(old(self)@.search_query),
                    ..old(self)@
                }));
                self.do_search(folders, slot);
                TuiAction::Nothing
            },
            Key::Char(c) => {
                if c == 'k' {
                    self.search_up();
                } else if c == 'j' {
                    self.search_down();
                } else {
                    self.search_query = push_char(self.search_query.as_str(), c);
                    assert(self@ =~= (TuiState {
                        search_query: old(self)@.search_query.push(c),
                        ..old(self)@
                    }));
                    self.do_search(folders, slot);
                }
                TuiAction::Nothing
            },
            _ => TuiAction::Nothing,
        }
    }
}

impl Tui {
    fn go_up(&mut self, n: usize)
        requires
            old(self).wf(),
        ensures
            final(self).wf(),
            final(self)@ == if old(self).pane is Browser {
                TuiState {
                    cursor: moved_up(old(self)@.cursor, old(self)@.shown().len()),
                    ..old(self)@
                }
            } else {
                TuiState { queue_cursor: moved_up(old(self)@.queue_cursor, n as nat), ..old(self)@ }
            },
    {
        if self.pane == Pane::Browser {
            let shown = visible(&self.entries, self.filter_query.as_str());
            assert(as_ints(shown@).len() == shown@.len());
            self.cursor = move_up(self.cursor, shown.len());
        } else {
            self.queue_cursor = move_up(self.queue_cursor, n);
        }
    }

    fn go_down(&mut self, n: usize)
        requires
            old(self).wf(),
            old(self).cursor matches Some(i) ==> i < usize::MAX,
            old(self).queue_cursor matches Some(i) ==> i < usize::MAX,
        ensures
            final(self).wf(),
            final(self)@ == if old(self).pane is Browser {
                TuiState {
                    cursor: moved_down(old(self)@.cursor, old(self)@.shown().len()),
                    ..old(self)@
                }
            } else {
                TuiState {
                    queue_cursor: moved_down(old(self)@.queue_cursor, n as nat),
                    ..old(self)@
                }
            },
    {
        if self.pane == Pane::Browser {
            let shown = visible(&self.entries, self.filter_query.as_str());
            assert(as_ints(shown@).len() == shown@.len());
            self.cursor = move_down(self.cursor, shown.len());
        } else {
            self.queue_cursor = move_down(self.queue_cursor, n);
        }
    }

    fn on_open_key(&mut self) -> (action: TuiAction)
        requires
            old(self).wf(),
        ensures
            final(self).wf(),
            final(self)@ == old(self)@.open_key().0,
            carries_out(action, old(self)@.open_key().1),
    {
        if self.pane == Pane::Browser {
            self.enter()
        } else {
            TuiAction::Nothing
        }
    }

    fn on_back_key(&mut self) -> (action: TuiAction)
        requires
            old(self).wf(),
        ensures
            final(self).wf(),
            final(self)@ == old(self)@.back_key().0,
            carries_out(action, old(self)@.back_key().1),
    {
        if self.pane == Pane::Browser && self.crumbs.len() > 0 {
            self.back()
        } else {
            TuiAction::Nothing
        }
    }

    fn remove_selected_jobs(&mut self, queue: &mut Vec<QueueJob>) -> (action: TuiAction)
        requires
            old(self).wf(),
        ensures
            final(self).wf(),
            final(self)@ == old(self)@.letter('x', false, jobs(old(queue)@)).0,
            carries_out(action, old(self)@.letter('x', false, jobs(old(queue)@)).1),
            jobs(final(queue)@) == if old(self).pane is Queue && old(self)@.queue_sel != Set::<
                Seq<char>,
            >::empty() {
                jobs_among(jobs(old(queue)@), old(self)@.queue_sel, false)
            } else {
                jobs(old(queue)@)
            },
    {
        if self.pane == Pane::Queue && !self.queue_sel.is_empty() {
            remove_queue_sel(queue, &mut self.queued, &mut self.queue_sel);
            assert(self@ =~= old(self)@.letter('x', false, jobs(old(queue)@)).0);
            TuiAction::SaveQueue
        } else {
            TuiAction::Nothing
        }
    }

    fn on_letter(&mut self, c: char, shift: bool, queue: &mut Vec<QueueJob>) -> (action: TuiAction)
        requires
            old(self).wf(),
            old(self).cursor matches Some(i) ==> i < usize::MAX,
            old(self).queue_cursor matches Some(i) ==> i < usize::MAX,
        ensures
            final(self).wf(),
            final(self)@ == old(self)@.letter(c, shift, jobs(old(queue)@)).0,
            carries_out(action, old(self)@.letter(c, shift, jobs(old(queue)@)).1),
            jobs(final(queue)@) == if c == 'x' && old(self).pane is Queue && old(self)@.queue_sel
                != Set::<Seq<char>>::empty() {
                jobs_among(jobs(old(queue)@), old(self)@.queue_sel, false)
            } else {
                jobs(old(queue)@)
            },
    {
        let ghost start = self@;
        let ghost list = jobs(queue@);
        assert(list.len() == queue@.len());
        if c == 'Q' || (c == 'q' && shift) {
            return TuiAction::Quit;
        }
        if c == 'k' {
            let n: usize = queue.len();
            self.go_up(n);
            return TuiAction::Nothing;
        }
        if c == 'j' {
            let n: usize = queue.len();
            self.go_down(n);
            return TuiAction::Nothing;
        }
        if c == 'l' {
            return self.on_open_key();
        }
        if c == 'h' {
            return self.on_back_key();
        }
        if c == 'x' {
            return self.remove_selected_jobs(queue);
        }
        if c == 'q' {
            if self.pane == Pane::Browser {
                return self.queue_selection();
            }
            return TuiAction::Nothing;
        }
        if c == 's' {
            self.paused = !self.paused;
            self.status_msg = if self.paused {
                "Queue paused".to_owned()
            } else {
                "Queue started".to_owned()
            };
            assert(self@ =~= start.letter(c, shift, list).0);
            return TuiAction::SaveSettings;
        }
        if c == ' ' {
            if self.pane == Pane::Browser {
                self.toggle();
            } else {
                self.toggle_job(queue);
            }
        } else if c == 'a' {
            if self.pane == Pane::Browser {
                self.select_visible();
            }
        } else if c == 'A' {
            self.selected.clear();
            self.queue_sel.clear();
        } else if c == '/' {
            self.searching = true;
            self.search_query = String::new();
        } else if c == 'f' {
            if self.pane == Pane::Browser {
                self.filtering = true;
                self.filter_query = String::new();
                self.cursor = Some(0);
            }
        }
        assert(self@ =~= start.letter(c, shift, list).0);
        TuiAction::Nothing
    }

    /// A key. `folders` is how many folders the index knows.
    pub fn on_key(
        &mut self,
        key: Key,
        shift: bool,
        queue: &mut Vec<QueueJob>,
        folders: usize,
        slot: &Option<SearchData>,
    ) -> (action: TuiAction)
        requires
            old(self).wf(),
            old(self).cursor matches Some(i) ==> i < usize::MAX,
            old(self).queue_cursor matches Some(i) ==> i < usize::MAX,
            old(self).search_cursor matches Some(i) ==> i < usize::MAX,
        ensures
            final(self).wf(),
            final(self)@ == old(self)@.after_key(
                key,
                shift,
                jobs(old(queue)@),
                folders as nat,
                *slot,
            ).0,
            carries_out(
                action,
                old(self)@.after_key(key, shift, jobs(old(queue)@), folders as nat, *slot).1,
            ),
            jobs(final(queue)@) == if old(self)@.removes_jobs(key) {
                jobs_among(jobs(old(queue)@), old(self)@.queue_sel, false)
            } else {
                jobs(old(queue)@)
            },
    {
        if self.filtering {
            return self.on_filter_key(key);
        }
        if self.searching {
            return self.on_search_key(key, folders, slot);
        }
        assert(jobs(queue@).len() == queue@.len());
        match key {
            Key::Tab => {
                self.pane = if self.pane == Pane::Browser {
                    Pane::Queue
                } else {
                    Pane::Browser
                };
                TuiAction::Nothing
            },
            Key::Up => {
                let n: usize = queue.len();
                self.go_up(n);
                TuiAction::Nothing
            },
            Key::Down => {
                let n: usize = queue.len();
                self.go_down(n);
                TuiAction::Nothing
            },
            Key::Enter => self.on_open_key(),
            Key::Right => self.on_open_key(),
            Key::Backspace => self.on_back_key(),
            Key::Left => self.on_back_key(),
            Key::Esc => {
                self.filter_query = String::new();
                assert(self@ =~= (TuiState { filter_query: Seq::empty(), ..old(self)@ }));
                TuiAction::Nothing
            },
            Key::Char(c) => self.on_letter(c, shift, queue),
            Key::Other => TuiAction::Nothing,
        }
    }
}

// ── What the keys promise ────────────────────────────────────────────────────
/// What arrives for a folder that is no longer open changes nothing.
pub proof fn law_late_lines_dropped(
    state: TuiState,
    path: Seq<char>,
    entries: Seq<ListRow>,
    error: Seq<char>,
)
    requires
        path != state.current_path,
    ensures
        state.after_lines(path, entries) == state,
        state.after_error(path, error) == state,
{
}

/// Selecting a line twice leaves the selection as it was, where the line's file is neither queued
/// nor downloaded.
pub proof fn law_toggle_twice(state: TuiState)
    requires
        state.line_at_cursor() matches Some(e) ==> (e.url matches Some(u) ==> !state.queued.contains(
            u,
        ) && !state.downloaded.contains(u)),
    ensures
        state.toggled().toggled().selected == state.selected,
{
    assert(state.toggled().toggled().selected =~= state.selected);
}

/// Going into a folder and back leads to where one was, where that is where the crumbs lead.
pub proof fn law_back_undoes_enter(state: TuiState)
    requires
        state.line_at_cursor() matches Some(e) && e.is_folder,
        state.tail_path() == state.current_path,
    ensures
        state.entered_line().0.went_back().0.current_path == state.current_path,
        state.entered_line().0.went_back().0.crumbs == state.crumbs,
{
    let inside = state.entered_line().0;
    assert(inside.crumbs.drop_last() =~= state.crumbs);
}

/// The keys act on lines that are shown: a line under the cursor passes the filter, and moving the
/// cursor never leads out of the lines that are shown.
pub proof fn law_cursor_on_shown(state: TuiState, queue: Seq<Job>)
    requires
        state.pane is Browser,
        state.shown().len() <= usize::MAX,
    ensures
        state.line_at_cursor() matches Some(e) ==> state.entries.contains(e) && passes_filter(
            e,
            filter_of(state.filter_query),
        ),
        state.line_at_cursor() is Some ==> state.up(queue).line_at_cursor() is Some && state.down(
            queue,
        ).line_at_cursor() is Some,
{
    law_shown_lines(state.entries, filter_of(state.filter_query));
    if let Some(i) = state.cursor {
        if i < state.shown().len() {
            let k = state.shown()[i as int];
            assert(state.entries[k] == state.line_at_cursor()->0);
        }
    }
}

/// While the filter or the search is typed, no key quits, queues or removes.
pub proof fn law_typing_is_typing(
    state: TuiState,
    c: char,
    shift: bool,
    queue: Seq<Job>,
    folders: nat,
    slot: Option<SearchData>,
)
    requires
        state.filtering || state.searching,
    ensures
        state.after_key(Key::Char(c), shift, queue, folders, slot).1 is Nothing,
        !state.removes_jobs(Key::Char(c)),
{
}

/// No filter and no search is typed: the keys are commands.
pub open spec fn takes_commands(state: TuiState) -> bool {
    !state.filtering && !state.searching
}

/// The arrow keys and the letters `k` and `j` move the cursor of the active pane one line up or down,
/// round the ends of what it shows, and change nothing else.
pub proof fn law_keys_move(
    state: TuiState,
    shift: bool,
    queue: Seq<Job>,
    folders: nat,
    slot: Option<SearchData>,
)
    requires
        takes_commands(state),
        visible_lines(state.entries, filter_of(state.filter_query)).len() <= usize::MAX,
        queue.len() <= usize::MAX,
    ensures
        ({
            let up = state.after_key(Key::Up, shift, queue, folders, slot);
            let down = state.after_key(Key::Down, shift, queue, folders, slot);
            let browser = state.pane is Browser;
            let n = if browser {
                visible_lines(state.entries, filter_of(state.filter_query)).len()
            } else {
                queue.len()
            };
            let before = if browser {
                state.cursor
            } else {
                state.queue_cursor
            };
            let above = if browser {
                up.0.cursor
            } else {
                up.0.queue_cursor
            };
            let below = if browser {
                down.0.cursor
            } else {
                down.0.queue_cursor
            };
            &&& state.after_key(Key::Char('k'), shift, queue, folders, slot) == up
            &&& state.after_key(Key::Char('j'), shift, queue, folders, slot) == down
            &&& up.1 is Nothing && down.1 is Nothing
            &&& browser ==> up.0 == (TuiState { cursor: above, ..state }) && down.0 == (TuiState {
                cursor: below,
                ..state
            })
            &&& !browser ==> up.0 == (TuiState { queue_cursor: above, ..state }) && down.0 == (
            TuiState { queue_cursor: below, ..state })
            &&& n == 0 ==> above == before && below == before
            &&& n > 0 && before is None ==> above == Some(0usize) && below == Some(0usize)
            &&& n > 0 && before is Some && before->0 < n ==> {
                &&& before->0 > 0 ==> above is Some && above->0 == before->0 - 1
                &&& before->0 == 0 ==> above is Some && above->0 == n - 1
                &&& before->0 + 1 < n ==> below is Some && below->0 == before->0 + 1
                &&& before->0 + 1 == n ==> below == Some(0usize)
            }
        }),
{
    let n = state.shown().len();
    if state.pane is Browser {
        if let Some(i) = state.cursor {
            if i + 1 < n {
                lemma_small_mod((i + 1) as nat, n);
            } else if i + 1 == n {
                lemma_mod_self_0(n as int);
            }
        }
    } else {
        let m = queue.len();
        if let Some(i) = state.queue_cursor {
            if i + 1 < m {
                lemma_small_mod((i + 1) as nat, m);
            } else if i + 1 == m {
                lemma_mod_self_0(m as int);
            }
        }
    }
}

/// Enter, the right arrow and `l` open the folder under the cursor or queue the file there, counted
/// among the lines that the filter lets pass; a file that is in the queue is not queued again. They
/// do nothing in the queue's pane.
pub proof fn law_keys_open(
    state: TuiState,
    shift: bool,
    queue: Seq<Job>,
    folders: nat,
    slot: Option<SearchData>,
    i: usize,
)
    requires
        takes_commands(state),
    ensures
        ({
            let shown = visible_lines(state.entries, filter_of(state.filter_query));
            let e = state.entries[shown[i as int]];
            let (after, order) = state.after_key(Key::Enter, shift, queue, folders, slot);
            &&& state.after_key(Key::Right, shift, queue, folders, slot) == (after, order)
            &&& state.after_key(Key::Char('l'), shift, queue, folders, slot) == (after, order)
            &&& state.pane is Queue ==> after == state && order is Nothing
            &&& state.pane is Browser && state.cursor is None ==> after == state && order is Nothing
            &&& state.pane is Browser && state.cursor == Some(i) && i >= shown.len() ==> after
                == state && order is Nothing
            &&& state.pane is Browser && state.cursor == Some(i) && i < shown.len() && e.is_folder
                ==> {
                &&& order == TuiOrder::Fetch(state.current_path + e.href)
                &&& after.current_path == state.current_path + e.href
                &&& after.crumbs == state.crumbs.push((e.name, state.current_path + e.href))
                &&& after.entries.len() == 0 && after.loading && after.load_error is None
                &&& after.selected == Set::<Seq<char>>::empty() && after.cursor is None
                &&& after.queued == state.queued && after.downloaded == state.downloaded
                    && after.queue_sel == state.queue_sel
            }
            &&& state.pane is Browser && state.cursor == Some(i) && i < shown.len() && !e.is_folder
                && e.url is Some && !state.queued.contains(e.url->0) ==> {
                &&& order == TuiOrder::Queue(
                    seq![QueueRow { url: e.url->0, name: e.name, size: e.size }],
                )
                &&& after == (TuiState { status_msg: "Queued: "@ + e.name, ..state })
            }
            &&& state.pane is Browser && state.cursor == Some(i) && i < shown.len() && !e.is_folder
                && (e.url is None || state.queued.contains(e.url->0)) ==> after == state
                && order is Nothing
        }),
{
}

/// Backspace, the left arrow and `h` go one folder up, to where the way led before; at the root and
/// in the queue's pane they do nothing.
pub proof fn law_keys_back(
    state: TuiState,
    shift: bool,
    queue: Seq<Job>,
    folders: nat,
    slot: Option<SearchData>,
)
    requires
        takes_commands(state),
    ensures
        ({
            let (after, order) = state.after_key(Key::Backspace, shift, queue, folders, slot);
            let n = state.crumbs.len();
            let path = if n >= 2 {
                state.crumbs[n - 2].1
            } else {
                Seq::empty()
            };
            &&& state.after_key(Key::Left, shift, queue, folders, slot) == (after, order)
            &&& state.after_key(Key::Char('h'), shift, queue, folders, slot) == (after, order)
            &&& state.pane is Queue || n == 0 ==> after == state && order is Nothing
            &&& state.pane is Browser && n > 0 ==> {
                &&& order == TuiOrder::Fetch(path)
                &&& after.current_path == path
                &&& after.crumbs == state.crumbs.take(n - 1)
                &&& after.entries.len() == 0 && after.loading
                &&& after.selected == Set::<Seq<char>>::empty()
            }
        }),
{
    if state.crumbs.len() > 0 {
        assert(state.crumbs.drop_last() =~= state.crumbs.take(state.crumbs.len() - 1));
    }
}

/// The space bar selects the file under the cursor, or deselects it; one that is queued or downloaded
/// is not selected. In the queue's pane it does so with the job under the cursor.
pub proof fn law_key_select(
    state: TuiState,
    shift: bool,
    queue: Seq<Job>,
    folders: nat,
    slot: Option<SearchData>,
    i: usize,
    u: Seq<char>,
)
    requires
        takes_commands(state),
    ensures
        ({
            let shown = visible_lines(state.entries, filter_of(state.filter_query));
            let e = state.entries[shown[i as int]];
            let (after, order) = state.after_key(Key::Char(' '), shift, queue, folders, slot);
            &&& order is Nothing
            &&& after == (TuiState {
                selected: after.selected,
                queue_sel: after.queue_sel,
                ..state
            })
            &&& state.pane is Browser ==> after.queue_sel == state.queue_sel
            &&& state.pane is Queue ==> after.selected == state.selected
            &&& state.pane is Browser && state.cursor == Some(i) && i < shown.len() && !e.is_folder
                && e.url is Some ==> {
                &&& u != e.url->0 ==> (after.selected.contains(u) <==> state.selected.contains(u))
                &&& state.selected.contains(e.url->0) ==> !after.selected.contains(e.url->0)
                &&& !state.selected.contains(e.url->0) ==> (after.selected.contains(e.url->0) <==>
                !state.queued.contains(e.url->0) && !state.downloaded.contains(e.url->0))
            }
            &&& state.pane is Browser && state.cursor == Some(i) && (i >= shown.len()
                || e.is_folder || e.url is None) ==> after == state
            &&& state.pane is Queue && state.queue_cursor == Some(i) && i < queue.len() ==> {
                &&& after.queue_sel.contains(queue[i as int].id) <==> !state.queue_sel.contains(
                    queue[i as int].id,
                )
                &&& u != queue[i as int].id ==> (after.queue_sel.contains(u) <==>
                state.queue_sel.contains(u))
            }
            &&& state.pane is Queue && state.queue_cursor == Some(i) && i >= queue.len() ==> after
                == state
        }),
{
}

/// Every file that the filter lets pass and that is neither queued nor downloaded, line by line.
pub proof fn law_free_urls(
    entries: Seq<ListRow>,
    e: ListRow,
    filter: Seq<char>,
    queued: Set<Seq<char>>,
    downloaded: Set<Seq<char>>,
)
    ensures
        free_urls(Seq::empty(), filter, queued, downloaded) == Seq::<Seq<char>>::empty(),
        ({
            let takes = !e.is_folder && e.url is Some && passes_filter(e, filter)
                && !queued.contains(e.url->0) && !downloaded.contains(e.url->0);
            let before = free_urls(entries, filter, queued, downloaded);
            let after = free_urls(entries.push(e), filter, queued, downloaded);
            &&& takes ==> after == before.push(e.url->0)
            &&& !takes ==> after == before
        }),
{
    assert(entries.push(e).drop_last() =~= entries);
}

/// `a` selects all of them besides what is selected; `A` deselects everything in both panes; `q`
/// hands the selected files to the queue and deselects them.
pub proof fn law_keys_selection(
    state: TuiState,
    queue: Seq<Job>,
    folders: nat,
    slot: Option<SearchData>,
    u: Seq<char>,
)
    requires
        takes_commands(state),
    ensures
        ({
            let all = state.after_key(Key::Char('a'), false, queue, folders, slot);
            let none = state.after_key(Key::Char('A'), false, queue, folders, slot);
            let q = state.after_key(Key::Char('q'), false, queue, folders, slot);
            let files = selected_lines(state.entries, state.selected, state.queued);
            &&& all.1 is Nothing && none.1 is Nothing
            &&& all.0 == (TuiState { selected: all.0.selected, ..state })
            &&& state.pane is Browser ==> (all.0.selected.contains(u) <==> state.selected.contains(
                u,
            ) || free_urls(
                state.entries,
                filter_of(state.filter_query),
                state.queued,
                state.downloaded,
            ).contains(u))
            &&& state.pane is Queue ==> all.0 == state && q.0 == state && q.1 is Nothing
            &&& none.0 == (TuiState { selected: Set::empty(), queue_sel: Set::empty(), ..state })
            &&& state.pane is Browser ==> q.1 == TuiOrder::Queue(files) && q.0 == (TuiState {
                selected: Set::empty(),
                status_msg: "Queued "@ + counted(files.len(), "file"@, "s"@),
                ..state
            })
        }),
{
    let urls = free_urls(
        state.entries,
        filter_of(state.filter_query),
        state.queued,
        state.downloaded,
    );
    assert(urls.to_set().contains(u) <==> urls.contains(u));
}

/// The other commands: Tab changes the pane, `Q` quits, `s` starts or pauses the queue, `/` begins a
/// search and `f` a filter, Escape drops the filter, and `x` removes the selected jobs from the queue.
pub proof fn law_keys_other(
    state: TuiState,
    shift: bool,
    queue: Seq<Job>,
    folders: nat,
    slot: Option<SearchData>,
    url: Seq<char>,
)
    requires
        takes_commands(state),
    ensures
        ({
            let tab = state.after_key(Key::Tab, shift, queue, folders, slot);
            let s = state.after_key(Key::Char('s'), shift, queue, folders, slot);
            let x = state.after_key(Key::Char('x'), shift, queue, folders, slot);
            let f = state.after_key(Key::Char('f'), shift, queue, folders, slot);
            let stay = jobs_among(queue, state.queue_sel, false);
            &&& tab.1 is Nothing && tab.0 == (TuiState { pane: tab.0.pane, ..state })
            &&& tab.0.pane is Queue <==> state.pane is Browser
            &&& state.after_key(Key::Char('Q'), shift, queue, folders, slot) == (
                state,
                TuiOrder::Quit,
            )
            &&& state.after_key(Key::Char('q'), true, queue, folders, slot) == (
                state,
                TuiOrder::Quit,
            )
            &&& s.1 is SaveSettings && s.0.paused == !state.paused && s.0 == (TuiState {
                paused: s.0.paused,
                status_msg: s.0.status_msg,
                ..state
            })
            &&& state.paused ==> s.0.status_msg == "Queue started"@
            &&& !state.paused ==> s.0.status_msg == "Queue paused"@
            &&& state.after_key(Key::Char('/'), shift, queue, folders, slot) == (
                TuiState { searching: true, search_query: Seq::empty(), ..state },
                TuiOrder::Nothing,
            )
            &&& state.pane is Queue ==> f.0 == state && f.1 is Nothing
            &&& state.pane is Browser ==> f == (
                TuiState {
                    filtering: true,
                    filter_query: Seq::empty(),
                    cursor: Some(0),
                    ..state
                },
                TuiOrder::Nothing,
            )
            &&& state.after_key(Key::Esc, shift, queue, folders, slot) == (
                TuiState { filter_query: Seq::empty(), ..state },
                TuiOrder::Nothing,
            )
            &&& state.pane is Browser || state.queue_sel == Set::<Seq<char>>::empty() ==> x == (
                state,
                TuiOrder::Nothing,
            ) && !state.removes_jobs(Key::Char('x'))
            &&& state.pane is Queue && state.queue_sel != Set::<Seq<char>>::empty() ==> {
                &&& state.removes_jobs(Key::Char('x'))
                &&& x.1 is SaveQueue
                &&& x.0 == (TuiState {
                    queued: x.0.queued,
                    queue_sel: Set::empty(),
                    ..state
                })
                &&& x.0.queued.contains(url) <==> state.queued.contains(url) && exists|k: int|
                    0 <= k < stay.len() && (#[trigger] stay[k]).url == url
            }
        }),
{
    let stay = jobs_among(queue, state.queue_sel, false);
    let urls = urls_of(stay);
    assert(urls.to_set().contains(url) <==> urls.contains(url));
    if urls.contains(url) {
        let k = choose|k: int| 0 <= k < urls.len() && urls[k] == url;
        assert(stay[k].url == url);
    }
    if exists|k: int| 0 <= k < stay.len() && (#[trigger] stay[k]).url == url {
        let k = choose|k: int| 0 <= k < stay.len() && (#[trigger] stay[k]).url == url;
        assert(urls[k] == url);
    }
}

/// What is typed goes into the filter, and the cursor to its first line; Enter keeps the filter and
/// Escape drops it.
pub proof fn law_filter_typed(
    state: TuiState,
    shift: bool,
    queue: Seq<Job>,
    folders: nat,
    slot: Option<SearchData>,
    c: char,
    text: Seq<char>,
)
    requires
        state.filtering,
    ensures
        state.after_key(Key::Char(c), shift, queue, folders, slot) == (
            TuiState { filter_query: state.filter_query.push(c), cursor: Some(0), ..state },
            TuiOrder::Nothing,
        ),
        state.filter_query == text.push(c) ==> state.after_key(
            Key::Backspace,
            shift,
            queue,
            folders,
            slot,
        ) == (
            TuiState { filter_query: text, cursor: Some(0), ..state },
            TuiOrder::Nothing,
        ),
        state.after_key(Key::Enter, shift, queue, folders, slot) == (
            TuiState { filtering: false, ..state },
            TuiOrder::Nothing,
        ),
        state.after_key(Key::Esc, shift, queue, folders, slot) == (
            TuiState { filtering: false, filter_query: Seq::empty(), ..state },
            TuiOrder::Nothing,
        ),
{
    assert(text.push(c).drop_last() =~= text);
}

/// What is typed is searched for at once, except for the letters that move the cursor; Escape leaves
/// the search, and Enter opens the folder of the result under the cursor.
pub proof fn law_search_typed(
    state: TuiState,
    shift: bool,
    queue: Seq<Job>,
    folders: nat,
    slot: Option<SearchData>,
    c: char,
    text: Seq<char>,
    i: usize,
)
    requires
        !state.filtering,
        state.searching,
    ensures
        c != 'j' && c != 'k' ==> ({
            let after = state.after_key(Key::Char(c), shift, queue, folders, slot);
            let found = terminal_results(
                lowercase(state.search_query.push(c)),
                state.entries,
                folders,
                slot,
            );
            &&& after.1 is Nothing
            &&& after.0 == (TuiState {
                search_query: state.search_query.push(c),
                results: found,
                search_cursor: if found.len() > 0 {
                    Some(0)
                } else {
                    None
                },
                ..state
            })
        }),
        state.search_query == seq![c] ==> state.after_key(
            Key::Backspace,
            shift,
            queue,
            folders,
            slot,
        ).0 == (TuiState { search_query: Seq::empty(), results: Seq::empty(), ..state }),
        text.len() > 0 && state.search_query == text.push(c) ==> state.after_key(
            Key::Backspace,
            shift,
            queue,
            folders,
            slot,
        ).0.results == terminal_results(lowercase(text), state.entries, folders, slot)
            && state.after_key(Key::Backspace, shift, queue, folders, slot).0.search_query == text,
        state.after_key(Key::Esc, shift, queue, folders, slot) == (
            TuiState {
                searching: false,
                search_query: Seq::empty(),
                results: Seq::empty(),
                ..state
            },
            TuiOrder::Nothing,
        ),
        state.after_key(Key::Char('k'), shift, queue, folders, slot) == state.after_key(
            Key::Up,
            shift,
            queue,
            folders,
            slot,
        ),
        state.after_key(Key::Char('j'), shift, queue, folders, slot) == state.after_key(
            Key::Down,
            shift,
            queue,
            folders,
            slot,
        ),
        state.search_cursor == Some(i) && i < state.results.len() ==> ({
            let (after, order) = state.after_key(Key::Enter, shift, queue, folders, slot);
            let names = segments(parent_of(state.results[i as int].1));
            &&& order == TuiOrder::Fetch(path_of(names))
            &&& after.current_path == path_of(names)
            &&& after.crumbs == loose_steps(names)
            &&& !after.searching && after.results.len() == 0 && after.loading
                && after.entries.len() == 0
        }),
{
    assert(text.push(c).drop_last() =~= text);
    assert(seq![c].drop_last() =~= Seq::<char>::empty());
    if state.search_cursor == Some(i) && i < state.results.len() {
        lemma_steps_end(segments(parent_of(state.results[i as int].1)));
    }
}

proof fn lemma_steps_end(raw: Seq<Seq<char>>)
    ensures
        loose_steps(raw).len() == raw.len(),
        raw.len() > 0 ==> loose_steps(raw).last().1 == path_of(raw),
        raw.len() == 0 ==> path_of(raw) == Seq::<char>::empty(),
    decreases raw.len(),
{
    if raw.len() > 0 {
        lemma_steps_end(raw.drop_last());
    }
}

/// The search goes over all files that are indexed and shows the first of them; without an index it
/// goes over the files of the open folder.
pub proof fn law_terminal_search(
    q: Seq<char>,
    entries: Seq<ListRow>,
    e: ListRow,
    folders: nat,
    data: SearchData,
    i: int,
)
    ensures
        folders > 0 ==> terminal_results(q, entries, folders, None).len() == 0,
        folders > 0 ==> ({
            let found = hits(data@, lowercase(q));
            let shown = terminal_results(q, entries, folders, Some(data));
            &&& found.len() <= 300 ==> shown.len() == found.len()
            &&& found.len() > 300 ==> shown.len() == 300
            &&& 0 <= i < shown.len() ==> shown[i] == (
                found[i].name,
                found[i].folder + "/"@ + found[i].name,
            )
        }),
        terminal_results(q, Seq::empty(), 0, None).len() == 0,
        !e.is_folder && occurs_in(q, lowercase(e.name)) ==> terminal_results(
            q,
            entries.push(e),
            0,
            None,
        ) == terminal_results(q, entries, 0, None).push((e.name, e.href)),
        e.is_folder || !occurs_in(q, lowercase(e.name)) ==> terminal_results(
            q,
            entries.push(e),
            0,
            None,
        ) == terminal_results(q, entries, 0, None),
{
    assert(entries.push(e).drop_last() =~= entries);
}

/// The folder of a result is what stands before its last slash, and the way there has one step for
/// each of its names.
pub proof fn law_result_folder(folder: Seq<char>, name: Seq<char>, raw: Seq<Seq<char>>)
    ensures
        !name.contains('/') ==> parent_of(folder.push('/') + name) == folder,
        !name.contains('/') ==> parent_of(name) == Seq::<char>::empty(),
        loose_steps(Seq::empty()) == Seq::<(Seq<char>, Seq<char>)>::empty(),
        loose_steps(raw.push(name)) == loose_steps(raw).push(
            (loosely_decoded(encode_utf8(name)), path_of(raw) + name + "/"@),
        ),
{
    assert(raw.push(name).drop_last() =~= raw);
    law_last_index(name, '/');
    let path = folder.push('/') + name;
    law_last_index(path, '/');
    assert(path[folder.len() as int] == '/');
    let at = last_index_of(path, '/')->0;
    if at > folder.len() && !name.contains('/') {
        assert(name[at - folder.len() - 1] == '/');
    }
    assert(path.take(folder.len() as int) =~= folder);
}

/// When the open folder comes, its lines are shown and counted; when it cannot be had, the terminal
/// says why.
pub proof fn law_terminal_folder(state: TuiState, entries: Seq<ListRow>, error: Seq<char>)
    ensures
        state.after_lines(state.current_path, entries) == (TuiState {
            loading: false,
            entries,
            status_msg: decimal(lines_of(entries, true)) + " folders  "@ + decimal(
                lines_of(entries, false),
            ) + "  files"@,
            ..state
        }),
        state.after_error(state.current_path, error) == (TuiState {
            loading: false,
            load_error: Some(error),
            status_msg: "Error: "@ + error,
            ..state
        }),
{
}

/// What is ordered is what the caller is asked to do.
pub proof fn law_orders_carried_out(action: TuiAction, order: TuiOrder)
    requires
        carries_out(action, order),
    ensures
        action is Nothing <==> order is Nothing,
        action is Quit <==> order is Quit,
        action is SaveQueue <==> order is SaveQueue,
        action is SaveSettings <==> order is SaveSettings,
        order matches TuiOrder::Fetch(path) ==> action is Fetch && action->Fetch_0.path@ == path
            && action->Fetch_0.url@ == "https://myrient.erista.me/files/"@ + path
            && !action->Fetch_0.force,
        order matches TuiOrder::Queue(files) ==> action is Queue && queue_rows(action->Queue_0@)
            == files,
{
}

} // verus!
