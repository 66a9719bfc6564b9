//! The browser pane: the open folder, what is shown of it, and what is selected in it.

use crate::format::{count_of, counted, decimal_size, fmt_size};
use crate::generated_dirs::{folder_size, recorded_size, LocalIndex};
use crate::listing::{listed, opt_text, ListEntry, ListRow};
use crate::strmap::{StrMap, StrSet};
use crate::text::{
    concat, concat3, contains_text, decimal, decimal_text, join, joined, law_joined, law_trim_end,
    lowercase, occurs_in, same_text, texts, to_lower, trim_end_of, trim_end_slashes,
};
use crate::url_text::BASE_URL;
use vstd::prelude::*;

verus! {

/// A step of the way from the root to the open folder: what it shows and where it leads.
pub struct Crumb {
    pub label: String,
    pub path: String,
}

impl View for Crumb {
    type V = (Seq<char>, Seq<char>);

    open spec fn view(&self) -> (Seq<char>, Seq<char>) {
        (self.label@, self.path@)
    }
}

pub open spec fn way(crumbs: Seq<Crumb>) -> Seq<(Seq<char>, Seq<char>)> {
    crumbs.map_values(|c: Crumb| c@)
}

/// The browser pane.
pub struct Browser {
    pub crumbs: Vec<Crumb>,
    pub current_path: String,
    pub entries: Vec<ListEntry>,
    pub loading: bool,
    pub load_error: Option<String>,
    /// The URLs of the selected files.
    pub selected: StrSet,
    /// The paths of the selected folders.
    pub folder_selected: StrSet,
    pub filter_query: String,
    pub status_msg: String,
    pub status_active: bool,
    /// The row from which a range is selected.
    pub last_clicked: Option<usize>,
    /// The next folder is to be fetched from the server.
    pub force_refresh: bool,
    /// The name of the file to show when the folder is there.
    pub search_highlight: Option<String>,
    pub scroll_to_highlight: u8,
    pub highlight_url: Option<String>,
    /// The folder's scroll position is to be restored.
    pub restore_scroll: bool,
}

/// The state of the browser pane.
#[verifier::ext_equal]
pub struct BrowserState {
    pub crumbs: Seq<(Seq<char>, Seq<char>)>,
    pub current_path: Seq<char>,
    pub entries: Seq<ListRow>,
    pub loading: bool,
    pub load_error: Option<Seq<char>>,
    pub selected: Set<Seq<char>>,
    pub folder_selected: Set<Seq<char>>,
    pub filter_query: Seq<char>,
    pub status_msg: Seq<char>,
    pub status_active: bool,
    pub last_clicked: Option<usize>,
    pub force_refresh: bool,
    pub search_highlight: Option<Seq<char>>,
    pub scroll_to_highlight: u8,
    pub highlight_url: Option<Seq<char>>,
    pub restore_scroll: bool,
}

impl View for Browser {
    type V = BrowserState;

    open spec fn view(&self) -> BrowserState {
        BrowserState {
            crumbs: way(self.crumbs@),
            current_path: self.current_path@,
            entries: listed(self.entries@),
            loading: self.loading,
            load_error: opt_text(self.load_error),
            selected: self.selected@,
            folder_selected: self.folder_selected@,
            filter_query: self.filter_query@,
            status_msg: self.status_msg@,
            status_active: self.status_active,
            last_clicked: self.last_clicked,
            force_refresh: self.force_refresh,
            search_highlight: opt_text(self.search_highlight),
            scroll_to_highlight: self.scroll_to_highlight,
            highlight_url: opt_text(self.highlight_url),
            restore_scroll: self.restore_scroll,
        }
    }
}

/// What is to be fetched: the folder at `url`, whose path is `path`.
pub struct Fetch {
    pub url: String,
    pub path: String,
    pub force: bool,
}

// ── Navigation ───────────────────────────────────────────────────────────────
impl BrowserState {
    /// The pane on its way to a folder.
    pub open spec fn navigated(self, path: Seq<char>) -> BrowserState {
        BrowserState {
            current_path: path,
            entries: Seq::empty(),
            load_error: None,
            loading: true,
            status_active: true,
            status_msg: "Fetching directory…"@,
            filter_query: Seq::empty(),
            selected: Set::empty(),
            last_clicked: None,
            folder_selected: Set::empty(),
            force_refresh: false,
            ..self
        }
    }
}

/// What a pane asks for when it goes to a folder.
pub open spec fn is_fetch(fetch: Fetch, path: Seq<char>, force: bool) -> bool {
    &&& fetch.url@ == BASE_URL@ + path
    &&& fetch.path@ == path
    &&& fetch.force == force
}

impl Browser {
    pub open spec fn wf(&self) -> bool {
        self.selected.wf() && self.folder_selected.wf()
    }

    /// The pane at the start.
    pub fn new() -> (b: Self)
        ensures
            b.wf(),
            b@ == (BrowserState {
                crumbs: Seq::empty(),
                current_path: Seq::empty(),
                entries: Seq::empty(),
                loading: false,
                load_error: None,
                selected: Set::empty(),
                folder_selected: Set::empty(),
                filter_query: Seq::empty(),
                status_msg: "Ready"@,
                status_active: false,
                last_clicked: None,
                force_refresh: false,
                search_highlight: None,
                scroll_to_highlight: 0,
                highlight_url: None,
                restore_scroll: false,
            }),
    {
        Browser {
            crumbs: Vec::new(),
            current_path: String::new(),
            entries: Vec::new(),
            loading: false,
            load_error: None,
            selected: StrSet::new(),
            folder_selected: StrSet::new(),
            filter_query: String::new(),
            status_msg: "Ready".to_owned(),
            status_active: false,
            last_clicked: None,
            force_refresh: false,
            search_highlight: None,
            scroll_to_highlight: 0,
            highlight_url: None,
            restore_scroll: false,
        }
    }

    /// Goes to a folder.
    pub fn navigate(&mut self, path: String) -> (fetch: Fetch)
        requires
            old(self).wf(),
        ensures
            final(self).wf(),
            final(self)@ == old(self)@.navigated(path@),
            is_fetch(fetch, path@, old(self).force_refresh),
    {
        let fetch = Fetch {
            url: concat(BASE_URL, path.as_str()),
            path: path.clone(),
            force: self.force_refresh,
        };
        self.current_path = path;
        self.entries = Vec::new();
        self.load_error = None;
        self.loading = true;
        self.status_active = true;
        self.status_msg = "Fetching directory…".to_owned();
        self.filter_query = String::new();
        self.selected.clear();
        self.last_clicked = None;
        self.folder_selected.clear();
        self.force_refresh = false;
        assert(self@ =~= old(self)@.navigated(path@));
        fetch
    }

    /// Goes to the root.
    pub fn go_to_root(&mut self) -> (fetch: Fetch)
        requires
            old(self).wf(),
        ensures
            final(self).wf(),
            final(self)@ == (BrowserState { crumbs: Seq::empty(), ..old(self)@ }).navigated(
                Seq::empty(),
            ),
            is_fetch(fetch, Seq::empty(), old(self).force_refresh),
    {
        self.crumbs = Vec::new();
        assert(way(self.crumbs@) =~= Seq::<(Seq<char>, Seq<char>)>::empty());
        let root = String::new();
        assert(root@ =~= Seq::<char>::empty());
        self.navigate(root)
    }

    /// Goes back to crumb number `i`.
    pub fn go_to_crumb(&mut self, i: usize) -> (fetch: Fetch)
        requires
            old(self).wf(),
            i < old(self).crumbs@.len(),
        ensures
            final(self).wf(),
            final(self)@ == (BrowserState {
                crumbs: old(self)@.crumbs.take(i + 1),
                ..old(self)@
            }).navigated(old(self)@.crumbs[i as int].1),
            is_fetch(fetch, old(self)@.crumbs[i as int].1, old(self).force_refresh),
    {
        let n: usize = self.crumbs.len();
        let path = self.crumbs[i].path.clone();
        assert(i + 1 <= n);
        self.crumbs.truncate(i + 1);
        assert(way(self.crumbs@) =~= old(self)@.crumbs.take(i + 1));
        self.navigate(path)
    }

    /// Goes into a folder of the open folder.
    pub fn open_folder(&mut self, name: &str, href: &str) -> (fetch: Fetch)
        requires
            old(self).wf(),
        ensures
            final(self).wf(),
            final(self)@ == (BrowserState {
                crumbs: old(self)@.crumbs.push((name@, old(self)@.current_path + href@)),
                ..old(self)@
            }).navigated(old(self)@.current_path + href@),
            is_fetch(fetch, old(self)@.current_path + href@, old(self).force_refresh),
    {
        let path = concat(self.current_path.as_str(), href);
        self.crumbs.push(Crumb { label: name.to_owned(), path: path.clone() });
        assert(way(self.crumbs@) =~= old(self)@.crumbs.push((name@, path@)));
        self.navigate(path)
    }

    /// Fetches the open folder from the server.
    pub fn refresh(&mut self) -> (fetch: Fetch)
        requires
            old(self).wf(),
        ensures
            final(self).wf(),
            final(self)@ == old(self)@.navigated(old(self)@.current_path),
            is_fetch(fetch, old(self)@.current_path, true),
    {
        self.force_refresh = true;
        let path = self.current_path.clone();
        let fetch = self.navigate(path);
        assert(self@ =~= old(self)@.navigated(old(self)@.current_path));
        fetch
    }
}

// ── A folder arrives ─────────────────────────────────────────────────────────
/// How many lines are folders, or files.
pub open spec fn lines_of(entries: Seq<ListRow>, folders: bool) -> nat
    decreases entries.len(),
{
    if entries.len() == 0 {
        0
    } else {
        lines_of(entries.drop_last(), folders) + if entries.last().is_folder == folders {
            1nat
        } else {
            0nat
        }
    }
}

/// How many lines are folders, or files.
pub fn count_lines(entries: &Vec<ListEntry>, folders: bool) -> (n: usize)
    ensures
        n as nat == lines_of(listed(entries@), folders),
{
    let ghost view = listed(entries@);
    let mut n: usize = 0;
    let mut i: usize = 0;
    while i < entries.len()
        invariant
            view == listed(entries@),
            i <= entries@.len(),
            n <= i,
            n as nat == lines_of(view.take(i as int), folders),
        decreases entries@.len() - i,
    {
        proof {
            assert(view.take(i + 1).drop_last() =~= view.take(i as int));
            assert(view.take(i + 1).last() == entries@[i as int]@);
        }
        if entries[i].is_folder == folders {
            n = n + 1;
        }
        i = i + 1;
    }
    assert(view.take(entries@.len() as int) =~= view);
    n
}

/// The parts of the line that sums up a folder.
pub open spec fn summary_parts(folders: nat, files: nat, bytes: nat) -> Seq<Seq<char>> {
    (if folders > 0 {
        seq![counted(folders, "folder"@, "s"@)]
    } else {
        Seq::empty()
    }) + (if files > 0 {
        seq![counted(files, "file"@, "s"@)]
    } else {
        Seq::empty()
    }) + (if bytes > 0 {
        seq![decimal_size(bytes, " "@)]
    } else {
        Seq::empty()
    })
}

/// The line that sums up a folder.
pub open spec fn summary_text(folders: nat, files: nat, bytes: nat) -> Seq<char> {
    if folders == 0 && files == 0 && bytes == 0 {
        "Empty"@
    } else {
        joined(summary_parts(folders, files, bytes), "  ·  "@)
    }
}

/// The line that sums up a folder.
pub fn summary(folders: usize, files: usize, bytes: u64) -> (text: String)
    ensures
        text@ == summary_text(folders as nat, files as nat, bytes as nat),
{
    let mut parts: Vec<String> = Vec::new();
    if folders > 0 {
        parts.push(count_of(folders, "folder", "s"));
    }
    if files > 0 {
        parts.push(count_of(files, "file", "s"));
    }
    if bytes > 0 {
        parts.push(fmt_size(bytes));
    }
    assert(texts(parts@) =~= summary_parts(folders as nat, files as nat, bytes as nat));
    if parts.len() == 0 {
        "Empty".to_owned()
    } else {
        join(&parts, "  ·  ")
    }
}

/// The key under which a folder's size is remembered; `None` where it is not.
pub fn size_key(current_path: &str, page_bytes: u64) -> (key: Option<String>)
    ensures
        match key {
            Some(k) => k@ == trim_end_of(current_path@, '/') && k@.len() > 0 && page_bytes > 0,
            None => trim_end_of(current_path@, '/').len() == 0 || page_bytes == 0,
        },
{
    let key = trim_end_slashes(current_path);
    if key.as_str().unicode_len() > 0 && page_bytes > 0 {
        Some(key)
    } else {
        None
    }
}

/// The URLs of the files whose name is `name`, whatever its case.
pub open spec fn urls_named(entries: Seq<ListRow>, name: Seq<char>) -> Seq<Seq<char>>
    decreases entries.len(),
{
    if entries.len() == 0 {
        Seq::empty()
    } else {
        let head = urls_named(entries.drop_last(), name);
        let e = entries.last();
        match e.url {
            Some(u) => if !e.is_folder && lowercase(e.name) == lowercase(name) {
                head.push(u)
            } else {
                head
            },
            None => head,
        }
    }
}

impl BrowserState {
    /// The pane with the folder's lines.
    pub open spec fn filled(self, entries: Seq<ListRow>, page_bytes: nat) -> BrowserState {
        BrowserState {
            loading: false,
            status_active: false,
            status_msg: summary_text(lines_of(entries, true), lines_of(entries, false), page_bytes),
            entries,
            load_error: None,
            restore_scroll: true,
            ..self
        }
    }

    /// The pane after the file to show was looked for: it is selected and scrolled to.
    pub open spec fn highlighted(self) -> BrowserState {
        match self.search_highlight {
            None => self,
            Some(name) => {
                let urls = urls_named(self.entries, name);
                BrowserState {
                    selected: self.selected.union(urls.to_set()),
                    scroll_to_highlight: if urls.len() > 0 {
                        2
                    } else {
                        self.scroll_to_highlight
                    },
                    highlight_url: if urls.len() > 0 {
                        Some(urls.last())
                    } else {
                        self.highlight_url
                    },
                    search_highlight: None,
                    restore_scroll: false,
                    ..self
                }
            },
        }
    }

    /// The pane after a folder's lines came. What belongs to another folder is dropped.
    pub open spec fn after_lines(
        self,
        path: Seq<char>,
        entries: Seq<ListRow>,
        page_bytes: nat,
    ) -> BrowserState {
        if path != self.current_path {
            self
        } else {
            self.filled(entries, page_bytes).highlighted()
        }
    }

    /// The pane after a folder could not be had.
    pub open spec fn after_error(self, path: Seq<char>, error: Seq<char>) -> BrowserState {
        if path != self.current_path {
            self
        } else {
            BrowserState {
                loading: false,
                status_active: false,
                load_error: Some(error),
                status_msg: "Error: "@ + error,
                ..self
            }
        }
    }
}

fn find_named(entries: &Vec<ListEntry>, name: &str) -> (urls: Vec<String>)
    ensures
        texts(urls@) == urls_named(listed(entries@), name@),
{
    let ghost view = listed(entries@);
    let wanted = to_lower(name);
    let mut urls: Vec<String> = Vec::new();
    let mut i: usize = 0;
    assert(texts(urls@) =~= Seq::<Seq<char>>::empty());
    while i < entries.len()
        invariant
            view == listed(entries@),
            wanted@ == lowercase(name@),
            i <= entries@.len(),
            texts(urls@) == urls_named(view.take(i as int), name@),
        decreases entries@.len() - i,
    {
        let e = &entries[i];
        let ghost before = texts(urls@);
        proof {
            assert(view.take(i + 1).drop_last() =~= view.take(i as int));
            assert(view.take(i + 1).last() == e@);
        }
        if !e.is_folder {
            let lower = to_lower(e.name.as_str());
            if same_text(lower.as_str(), wanted.as_str()) {
                match &e.url {
                    Some(u) => {
                        urls.push(u.clone());
                        assert(texts(urls@) =~= before.push(u@));
                    },
                    None => {},
                }
            }
        }
        i = i + 1;
    }
    assert(view.take(entries@.len() as int) =~= view);
    urls
}

impl Browser {
    fn highlight(&mut self)
        requires
            old(self).wf(),
        ensures
            final(self).wf(),
            final(self)@ == old(self)@.highlighted(),
    {
        let name: String = match &self.search_highlight {
            None => {
                return;
            },
            Some(n) => n.clone(),
        };
        let urls = find_named(&self.entries, name.as_str());
        let n: usize = urls.len();
        self.selected.insert_all(&urls);
        if n > 0 {
            assert(texts(urls@).last() == urls@[n - 1]@);
            self.scroll_to_highlight = 2;
            self.highlight_url = Some(urls[n - 1].clone());
        }
        self.search_highlight = None;
        self.restore_scroll = false;
        assert(self@ =~= old(self)@.highlighted());
    }

    /// A folder's lines came. `page_bytes` are the bytes of its files.
    pub fn take_lines(&mut self, path: &str, entries: Vec<ListEntry>, page_bytes: u64)
        requires
            old(self).wf(),
        ensures
            final(self).wf(),
            final(self)@ == old(self)@.after_lines(path@, listed(entries@), page_bytes as nat),
    {
        if !same_text(path, self.current_path.as_str()) {
            return;
        }
        let ghost lines = listed(entries@);
        self.loading = false;
        self.status_active = false;
        let folders: usize = count_lines(&entries, true);
        let files: usize = count_lines(&entries, false);
        self.status_msg = summary(folders, files, page_bytes);
        self.entries = entries;
        self.load_error = None;
        self.restore_scroll = true;
        assert(self@ =~= old(self)@.filled(lines, page_bytes as nat));
        self.highlight();
    }

    /// A folder could not be had.
    pub fn take_error(&mut self, path: &str, error: String)
        requires
            old(self).wf(),
        ensures
            final(self).wf(),
            final(self)@ == old(self)@.after_error(path@, error@),
    {
        if !same_text(path, self.current_path.as_str()) {
            return;
        }
        self.loading = false;
        self.status_active = false;
        self.status_msg = concat("Error: ", error.as_str());
        self.load_error = Some(error);
        assert(self@ =~= old(self)@.after_error(path@, error@));
    }
}

// ── What is shown ────────────────────────────────────────────────────────────
/// Whether a line passes the filter, which is in lower case.
pub open spec fn passes_filter(e: ListRow, filter: Seq<char>) -> bool {
    filter.len() == 0 || occurs_in(filter, lowercase(e.name))
}

/// The positions of the lines that pass the filter, in their order.
pub open spec fn visible_lines(entries: Seq<ListRow>, filter: Seq<char>) -> Seq<int>
    decreases entries.len(),
{
    if entries.len() == 0 {
        Seq::empty()
    } else {
        let head = visible_lines(entries.drop_last(), filter);
        if passes_filter(entries.last(), filter) {
            head.push(entries.len() - 1)
        } else {
            head
        }
    }
}

/// The lines that are shown are exactly those that pass the filter, each once and in their order.
pub proof fn law_shown_lines(entries: Seq<ListRow>, filter: Seq<char>)
    ensures
        forall|k: int|
            0 <= k < visible_lines(entries, filter).len() ==> 0 <= #[trigger] visible_lines(
                entries,
                filter,
            )[k] < entries.len() && passes_filter(
                entries[visible_lines(entries, filter)[k]],
                filter,
            ),
        forall|k: int, l: int|
            0 <= k < l < visible_lines(entries, filter).len() ==> (#[trigger] visible_lines(
                entries,
                filter,
            )[k]) < (#[trigger] visible_lines(entries, filter)[l]),
        forall|i: int|
            0 <= i < entries.len() && passes_filter(#[trigger] entries[i], filter)
                ==> visible_lines(entries, filter).contains(i),
    decreases entries.len(),
{
    if entries.len() > 0 {
        let rest = entries.drop_last();
        law_shown_lines(rest, filter);
        let head = visible_lines(rest, filter);
        let all = visible_lines(entries, filter);
        assert forall|k: int| 0 <= k < all.len() implies 0 <= #[trigger] all[k] < entries.len()
            && passes_filter(entries[all[k]], filter) by {
            if k < head.len() {
                assert(all[k] == head[k]);
                assert(rest[head[k]] == entries[head[k]]);
            }
        }
        assert forall|k: int, l: int| 0 <= k < l < all.len() implies (#[trigger] all[k]) < (
        #[trigger] all[l]) by {
            assert(all[k] == head[k]);
            if l < head.len() {
                assert(all[l] == head[l]);
            }
        }
        assert forall|i: int|
            0 <= i < entries.len() && passes_filter(
                #[trigger] entries[i],
                filter,
            ) implies all.contains(i) by {
            if i < rest.len() {
                assert(rest[i] == entries[i]);
                let k = choose|k: int| 0 <= k < head.len() && head[k] == i;
                assert(all[k] == i);
            } else {
                assert(all[head.len() as int] == i);
            }
        }
    }
}

/// The filter as it is compared: in lower case. No filter is no filter.
pub open spec fn filter_of(query: Seq<char>) -> Seq<char> {
    if query.len() == 0 {
        Seq::empty()
    } else {
        lowercase(query)
    }
}

/// Whether a line passes the filter, which is in lower case.
pub fn line_passes(e: &ListEntry, filter: &str) -> (yes: bool)
    ensures
        yes == passes_filter(e@, filter@),
{
    if filter.unicode_len() == 0 {
        true
    } else {
        let name = to_lower(e.name.as_str());
        contains_text(name.as_str(), filter)
    }
}

/// The filter as it is compared.
pub fn lower_filter(query: &str) -> (filter: String)
    ensures
        filter@ == filter_of(query@),
{
    if query.unicode_len() == 0 {
        let none = String::new();
        assert(none@ =~= Seq::<char>::empty());
        none
    } else {
        to_lower(query)
    }
}

pub open spec fn as_ints(list: Seq<usize>) -> Seq<int> {
    list.map_values(|i: usize| i as int)
}

/// The positions of the lines that pass a filter query.
pub fn visible(entries: &Vec<ListEntry>, query: &str) -> (shown: Vec<usize>)
    ensures
        as_ints(shown@) == visible_lines(listed(entries@), filter_of(query@)),
{
    let ghost view = listed(entries@);
    let filter = lower_filter(query);
    let mut shown: Vec<usize> = Vec::new();
    let mut i: usize = 0;
    assert(as_ints(shown@) =~= Seq::<int>::empty());
    while i < entries.len()
        invariant
            view == listed(entries@),
            i <= entries@.len(),
            as_ints(shown@) == visible_lines(view.take(i as int), filter@),
        decreases entries@.len() - i,
    {
        let ghost before = as_ints(shown@);
        proof {
            assert(view.take(i + 1).drop_last() =~= view.take(i as int));
            assert(view.take(i + 1).last() == entries@[i as int]@);
        }
        if line_passes(&entries[i], filter.as_str()) {
            shown.push(i);
            assert(as_ints(shown@) =~= before.push(i as int));
        }
        i = i + 1;
    }
    assert(view.take(entries@.len() as int) =~= view);
    shown
}

// ── Scrolling ────────────────────────────────────────────────────────────────
/// Where the list of lines is scrolled to.
#[derive(Clone, Copy, PartialEq, Eq, Structural, Debug)]
pub enum Scroll {
    /// Where it is.
    Stay,
    /// To a row.
    Row(usize),
    /// To where it was when the folder was left.
    Saved,
}

/// The position of the first file at an address.
pub open spec fn line_at_url(entries: Seq<ListRow>, url: Seq<char>) -> Option<int>
    decreases entries.len(),
{
    if entries.len() == 0 {
        None
    } else {
        match line_at_url(entries.drop_last(), url) {
            Some(i) => Some(i),
            None => if entries.last().url == Some(url) {
                Some(entries.len() - 1)
            } else {
                None
            },
        }
    }
}

/// The row of a line among those that are shown.
pub open spec fn row_of(shown: Seq<int>, line: int) -> Option<int>
    decreases shown.len(),
{
    if shown.len() == 0 {
        None
    } else {
        match row_of(shown.drop_last(), line) {
            Some(p) => Some(p),
            None => if shown.last() == line {
                Some(shown.len() - 1)
            } else {
                None
            },
        }
    }
}

impl BrowserState {
    /// The row of the file to show, while there is one.
    pub open spec fn scroll_row(self, shown: Seq<int>) -> Option<int> {
        if self.scroll_to_highlight == 0 {
            None
        } else {
            match self.highlight_url {
                None => None,
                Some(url) => match line_at_url(self.entries, url) {
                    None => None,
                    Some(line) => match row_of(shown, line) {
                        Some(row) => Some(row),
                        None => Some(line),
                    },
                },
            }
        }
    }

    /// The pane after it was scrolled.
    pub open spec fn after_scroll(self, shown: Seq<int>) -> BrowserState {
        if self.scroll_row(shown) is Some {
            BrowserState {
                scroll_to_highlight: (self.scroll_to_highlight - 1) as u8,
                highlight_url: if self.scroll_to_highlight == 1 {
                    None
                } else {
                    self.highlight_url
                },
                ..self
            }
        } else if self.scroll_to_highlight == 0 {
            BrowserState { restore_scroll: false, ..self }
        } else {
            self
        }
    }
}

fn find_url(entries: &Vec<ListEntry>, url: &str) -> (at: Option<usize>)
    ensures
        match at {
            Some(i) => line_at_url(listed(entries@), url@) == Some(i as int),
            None => line_at_url(listed(entries@), url@) is None,
        },
{
    let ghost view = listed(entries@);
    let mut at: Option<usize> = None;
    let mut i: usize = 0;
    while i < entries.len()
        invariant
            view == listed(entries@),
            i <= entries@.len(),
            match at {
                Some(k) => line_at_url(view.take(i as int), url@) == Some(k as int),
                None => line_at_url(view.take(i as int), url@) is None,
            },
        decreases entries@.len() - i,
    {
        let e = &entries[i];
        proof {
            assert(view.take(i + 1).drop_last() =~= view.take(i as int));
            assert(view.take(i + 1).last() == e@);
        }
        if at.is_none() {
            match &e.url {
                Some(u) => {
                    if same_text(u.as_str(), url) {
                        at = Some(i);
                    }
                },
                None => {},
            }
        }
        i = i + 1;
    }
    assert(view.take(entries@.len() as int) =~= view);
    at
}

fn find_row(shown: &Vec<usize>, line: usize) -> (at: Option<usize>)
    ensures
        match at {
            Some(p) => row_of(as_ints(shown@), line as int) == Some(p as int),
            None => row_of(as_ints(shown@), line as int) is None,
        },
{
    let ghost view = as_ints(shown@);
    let mut at: Option<usize> = None;
    let mut i: usize = 0;
    while i < shown.len()
        invariant
            view == as_ints(shown@),
            i <= shown@.len(),
            match at {
                Some(p) => row_of(view.take(i as int), line as int) == Some(p as int),
                None => row_of(view.take(i as int), line as int) is None,
            },
        decreases shown@.len() - i,
    {
        proof {
            assert(view.take(i + 1).drop_last() =~= view.take(i as int));
            assert(view.take(i + 1).last() == shown@[i as int]);
        }
        if at.is_none() && shown[i] == line {
            at = Some(i);
        }
        i = i + 1;
    }
    assert(view.take(shown@.len() as int) =~= view);
    at
}

impl Browser {
    fn target_row(&self, shown: &Vec<usize>) -> (row: Option<usize>)
        ensures
            match row {
                Some(r) => self@.scroll_row(as_ints(shown@)) == Some(r as int),
                None => self@.scroll_row(as_ints(shown@)) is None,
            },
    {
        if self.scroll_to_highlight == 0 {
            return None;
        }
        match &self.highlight_url {
            None => None,
            Some(url) => match find_url(&self.entries, url.as_str()) {
                None => None,
                Some(line) => match find_row(shown, line) {
                    Some(row) => Some(row),
                    None => Some(line),
                },
            },
        }
    }

    /// Where the list is scrolled to before it is drawn. `shown` are the lines that are shown. A
    /// file that was opened from the search comes before the position that was left.
    pub fn scroll(&mut self, shown: &Vec<usize>) -> (to: Scroll)
        requires
            old(self).wf(),
        ensures
            final(self).wf(),
            final(self)@ == old(self)@.after_scroll(as_ints(shown@)),
            match old(self)@.scroll_row(as_ints(shown@)) {
                Some(row) => to matches Scroll::Row(r) && r == row,
                None => to == if old(self).scroll_to_highlight == 0 && old(self).restore_scroll {
                    Scroll::Saved
                } else {
                    Scroll::Stay
                },
            },
    {
        match self.target_row(shown) {
            Some(row) => {
                self.scroll_to_highlight = self.scroll_to_highlight - 1;
                if self.scroll_to_highlight == 0 {
                    self.highlight_url = None;
                }
                assert(self@ =~= old(self)@.after_scroll(as_ints(shown@)));
                Scroll::Row(row)
            },
            None => {
                if self.scroll_to_highlight == 0 {
                    let to = if self.restore_scroll {
                        Scroll::Saved
                    } else {
                        Scroll::Stay
                    };
                    self.restore_scroll = false;
                    assert(self@ =~= old(self)@.after_scroll(as_ints(shown@)));
                    to
                } else {
                    assert(self@ =~= old(self)@.after_scroll(as_ints(shown@)));
                    Scroll::Stay
                }
            },
        }
    }
}

// ── The filter's label ───────────────────────────────────────────────────────
/// How many folders, or files, pass the filter.
pub open spec fn passing_lines(entries: Seq<ListRow>, filter: Seq<char>, folders: bool) -> nat
    decreases entries.len(),
{
    if entries.len() == 0 {
        0
    } else {
        let e = entries.last();
        passing_lines(entries.drop_last(), filter, folders) + if e.is_folder == folders
            && passes_filter(e, filter) {
            1nat
        } else {
            0nat
        }
    }
}

fn count_passing(entries: &Vec<ListEntry>, filter: &str, folders: bool) -> (n: usize)
    ensures
        n as nat == passing_lines(listed(entries@), filter@, folders),
{
    let ghost view = listed(entries@);
    let mut n: usize = 0;
    let mut i: usize = 0;
    while i < entries.len()
        invariant
            view == listed(entries@),
            i <= entries@.len(),
            n <= i,
            n as nat == passing_lines(view.take(i as int), filter@, folders),
        decreases entries@.len() - i,
    {
        proof {
            assert(view.take(i + 1).drop_last() =~= view.take(i as int));
            assert(view.take(i + 1).last() == entries@[i as int]@);
        }
        if entries[i].is_folder == folders && line_passes(&entries[i], filter) {
            n = n + 1;
        }
        i = i + 1;
    }
    assert(view.take(entries@.len() as int) =~= view);
    n
}

/// What the filter found, beside its field.
pub open spec fn found_text(folders: nat, files: nat) -> Seq<char> {
    if folders == 0 {
        counted(files, "file"@, "s"@)
    } else if files == 0 {
        counted(folders, "folder"@, "s"@)
    } else {
        decimal(files) + "f "@ + decimal(folders) + "d"@
    }
}

/// What the filter found, beside its field.
pub fn filter_label(entries: &Vec<ListEntry>, query: &str) -> (text: String)
    ensures
        text@ == found_text(
            passing_lines(listed(entries@), filter_of(query@), true),
            passing_lines(listed(entries@), filter_of(query@), false),
        ),
{
    let filter = lower_filter(query);
    let folders: usize = count_passing(entries, filter.as_str(), true);
    let files: usize = count_passing(entries, filter.as_str(), false);
    if folders == 0 {
        count_of(files, "file", "s")
    } else if files == 0 {
        count_of(folders, "folder", "s")
    } else {
        let head = concat3(
            decimal_text(files as u64).as_str(),
            "f ",
            decimal_text(folders as u64).as_str(),
        );
        concat(head.as_str(), "d")
    }
}

// ── Selection ────────────────────────────────────────────────────────────────
/// The URLs of the files that pass the filter and are not downloaded.
pub open spec fn selectable(
    entries: Seq<ListRow>,
    filter: Seq<char>,
    downloaded: Set<Seq<char>>,
) -> Seq<Seq<char>>
    decreases entries.len(),
{
    if entries.len() == 0 {
        Seq::empty()
    } else {
        let head = selectable(entries.drop_last(), filter, downloaded);
        let e = entries.last();
        match e.url {
            Some(u) => if !e.is_folder && passes_filter(e, filter) && !downloaded.contains(u) {
                head.push(u)
            } else {
                head
            },
            None => head,
        }
    }
}

/// The URLs of the files that pass the filter query and are not downloaded.
pub fn selectable_urls(entries: &Vec<ListEntry>, query: &str, downloaded: &StrSet) -> (urls: Vec<
    String,
>)
    requires
        downloaded.wf(),
    ensures
        texts(urls@) == selectable(listed(entries@), filter_of(query@), downloaded@),
{
    let ghost view = listed(entries@);
    let filter = lower_filter(query);
    let mut urls: Vec<String> = Vec::new();
    let mut i: usize = 0;
    assert(texts(urls@) =~= Seq::<Seq<char>>::empty());
    while i < entries.len()
        invariant
            view == listed(entries@),
            downloaded.wf(),
            i <= entries@.len(),
            texts(urls@) == selectable(view.take(i as int), filter@, downloaded@),
        decreases entries@.len() - i,
    {
        let e = &entries[i];
        let ghost before = texts(urls@);
        proof {
            assert(view.take(i + 1).drop_last() =~= view.take(i as int));
            assert(view.take(i + 1).last() == e@);
        }
        match &e.url {
            Some(u) => {
                if !e.is_folder && line_passes(e, filter.as_str()) && !downloaded.contains(
                    u.as_str(),
                ) {
                    urls.push(u.clone());
                    assert(texts(urls@) =~= before.push(u@));
                }
            },
            None => {},
        }
        i = i + 1;
    }
    assert(view.take(entries@.len() as int) =~= view);
    urls
}

impl BrowserState {
    /// Whether anything is selected.
    pub open spec fn has_selection(self) -> bool {
        self.selected != Set::<Seq<char>>::empty() || self.folder_selected
            != Set::<Seq<char>>::empty()
    }

    /// The pane after the button that selects all, or deselects: where something is selected,
    /// nothing is afterwards; else all files that pass the filter and are not downloaded are.
    pub open spec fn after_select_all(self, downloaded: Set<Seq<char>>) -> BrowserState {
        if self.has_selection() {
            BrowserState { selected: Set::empty(), folder_selected: Set::empty(), ..self }
        } else {
            BrowserState {
                selected: selectable(
                    self.entries,
                    filter_of(self.filter_query),
                    downloaded,
                ).to_set(),
                ..self
            }
        }
    }

    /// The pane after a folder's box was clicked.
    pub open spec fn after_folder_box(self, path: Seq<char>) -> BrowserState {
        BrowserState {
            folder_selected: if self.folder_selected.contains(path) {
                self.folder_selected.remove(path)
            } else {
                self.folder_selected.insert(path)
            },
            ..self
        }
    }
}

impl Browser {
    /// Whether anything is selected.
    pub fn any_selected(&self) -> (any: bool)
        requires
            self.wf(),
        ensures
            any == self@.has_selection(),
    {
        !self.selected.is_empty() || !self.folder_selected.is_empty()
    }

    /// The button that selects all, or deselects.
    pub fn select_all(&mut self, downloaded: &StrSet)
        requires
            old(self).wf(),
            downloaded.wf(),
        ensures
            final(self).wf(),
            final(self)@ == old(self)@.after_select_all(downloaded@),
    {
        if self.any_selected() {
            self.selected.clear();
            self.folder_selected.clear();
        } else {
            let urls = selectable_urls(&self.entries, self.filter_query.as_str(), downloaded);
            self.selected.insert_all(&urls);
            assert(self@.selected =~= texts(urls@).to_set());
        }
        assert(self@ =~= old(self)@.after_select_all(downloaded@));
    }

    /// A folder's box was clicked.
    pub fn toggle_folder_selected(&mut self, path: String)
        requires
            old(self).wf(),
        ensures
            final(self).wf(),
            final(self)@ == old(self)@.after_folder_box(path@),
    {
        if self.folder_selected.contains(path.as_str()) {
            self.folder_selected.remove(path.as_str());
        } else {
            self.folder_selected.insert(path);
        }
        assert(self@ =~= old(self)@.after_folder_box(path@));
    }
}

/// The URLs of the files in the shown rows `lo..=hi`.
pub open spec fn range_urls(entries: Seq<ListRow>, shown: Seq<int>, lo: int, hi: int) -> Set<
    Seq<char>,
>
    decreases hi - lo + 1,
{
    if hi < lo {
        Set::empty()
    } else {
        let before = range_urls(entries, shown, lo, hi - 1);
        if 0 <= hi < shown.len() && !entries[shown[hi]].is_folder {
            match entries[shown[hi]].url {
                Some(u) => before.insert(u),
                None => before,
            }
        } else {
            before
        }
    }
}

impl BrowserState {
    /// The pane after a file's row was clicked: `at` is the row's place among the shown ones, `url`
    /// the file's URL. A click selects this file only, or deselects it; with control it adds the
    /// file; with shift it adds all files from the row that was clicked last. A file that is
    /// queued or downloaded (`taken`) is selected by a range only.
    pub open spec fn after_click(
        self,
        shown: Seq<int>,
        at: usize,
        url: Seq<char>,
        shift: bool,
        ctrl: bool,
        taken: bool,
    ) -> BrowserState {
        if self.selected.contains(url) && !shift {
            BrowserState {
                selected: self.selected.remove(url),
                last_clicked: if ctrl {
                    self.last_clicked
                } else {
                    None
                },
                ..self
            }
        } else if shift {
            let anchor = match self.last_clicked {
                Some(a) => a,
                None => at,
            };
            let lo = if anchor < at {
                anchor
            } else {
                at
            };
            let hi = if anchor < at {
                at
            } else {
                anchor
            };
            BrowserState {
                selected: self.selected.union(
                    range_urls(self.entries, shown, lo as int, hi as int),
                ),
                ..self
            }
        } else if ctrl {
            BrowserState {
                selected: if taken {
                    self.selected
                } else {
                    self.selected.insert(url)
                },
                last_clicked: Some(at),
                ..self
            }
        } else if taken {
            self
        } else {
            BrowserState { selected: set![url], last_clicked: Some(at), ..self }
        }
    }
}

impl Browser {
    fn select_range(&mut self, shown: &Vec<usize>, lo: usize, hi: usize)
        requires
            old(self).wf(),
            lo <= hi,
            forall|i: int|
                0 <= i < shown@.len() ==> (#[trigger] shown@[i]) < old(self).entries@.len(),
        ensures
            final(self).wf(),
            final(self)@ == (BrowserState {
                selected: old(self)@.selected.union(
                    range_urls(old(self)@.entries, as_ints(shown@), lo as int, hi as int),
                ),
                ..old(self)@
            }),
    {
        let ghost lines = self@.entries;
        let ghost rows = as_ints(shown@);
        let ghost start = self@.selected;
        let n: usize = shown.len();
        let mut i: usize = lo;
        assert(self@.selected =~= start.union(range_urls(lines, rows, lo as int, lo - 1)));
        while i < n && i <= hi
            invariant
                self.wf(),
                lo <= i,
                i <= hi + 1,
                n == shown@.len(),
                lines == self@.entries,
                lines == old(self)@.entries,
                rows == as_ints(shown@),
                forall|k: int|
                    0 <= k < shown@.len() ==> (#[trigger] shown@[k]) < self.entries@.len(),
                self@ == (BrowserState { selected: self@.selected, ..old(self)@ }),
                self@.selected == start.union(range_urls(lines, rows, lo as int, i - 1)),
            decreases n - i,
        {
            let at: usize = shown[i];
            assert(rows[i as int] == at);
            assert(lines[at as int] == self.entries@[at as int]@);
            let is_folder: bool = self.entries[at].is_folder;
            if !is_folder {
                let url: Option<String> = match &self.entries[at].url {
                    Some(u) => Some(u.clone()),
                    None => None,
                };
                match url {
                    Some(u) => {
                        self.selected.insert(u);
                    },
                    None => {},
                }
            }
            assert(self@.selected =~= start.union(range_urls(lines, rows, lo as int, i as int)));
            i = i + 1;
        }
        proof {
            if i <= hi {
                lemma_range_past_end(lines, rows, lo as int, i - 1, hi as int);
            }
        }
        assert(self@ =~= (BrowserState {
            selected: start.union(range_urls(lines, rows, lo as int, hi as int)),
            ..old(self)@
        }));
    }

    /// A file's row was clicked: row number `at` of the shown ones.
    pub fn click_file(
        &mut self,
        shown: &Vec<usize>,
        at: usize,
        url: &str,
        shift: bool,
        ctrl: bool,
        taken: bool,
    )
        requires
            old(self).wf(),
            forall|i: int|
                0 <= i < shown@.len() ==> (#[trigger] shown@[i]) < old(self).entries@.len(),
        ensures
            final(self).wf(),
            final(self)@ == old(self)@.after_click(as_ints(shown@), at, url@, shift, ctrl, taken),
    {
        if !shift && self.selected.contains(url) {
            self.selected.remove(url);
            if !ctrl {
                self.last_clicked = None;
            }
        } else if shift {
            let anchor: usize = match self.last_clicked {
                Some(a) => a,
                None => at,
            };
            if anchor < at {
                self.select_range(shown, anchor, at);
            } else {
                self.select_range(shown, at, anchor);
            }
        } else if ctrl {
            if !taken {
                self.selected.insert(url.to_owned());
            }
            self.last_clicked = Some(at);
        } else if !taken {
            self.selected.clear();
            self.selected.insert(url.to_owned());
            self.last_clicked = Some(at);
            assert(self@.selected =~= set![url@]);
        }
        assert(self@ =~= old(self)@.after_click(as_ints(shown@), at, url@, shift, ctrl, taken));
    }
}

/// Rows past the last shown one add nothing.
proof fn lemma_range_past_end(
    entries: Seq<ListRow>,
    shown: Seq<int>,
    lo: int,
    from: int,
    hi: int,
)
    requires
        from >= shown.len() - 1,
        lo - 1 <= from <= hi,
    ensures
        range_urls(entries, shown, lo, hi) == range_urls(entries, shown, lo, from),
    decreases hi - from,
{
    if from < hi {
        lemma_range_past_end(entries, shown, lo, from, hi - 1);
    }
}

// ── Rows ─────────────────────────────────────────────────────────────────────
/// What the pointer did on a row.
#[derive(Clone, Copy)]
pub struct RowInput {
    pub clicked: bool,
    pub double_clicked: bool,
    /// The click hit the box at the left.
    pub on_box: bool,
    /// The button that opens the folder was clicked.
    pub open_button: bool,
}

/// What follows for a row.
#[derive(Clone, Copy, PartialEq, Eq, Structural)]
pub enum RowAction {
    Nothing,
    /// Select or deselect the folder.
    ToggleFolder,
    /// Go into the folder.
    Open,
    /// Queue the file.
    Queue,
    /// Select or deselect the file.
    Select,
}

/// What follows for a row: a click on a folder's box selects it, another click opens it; a file is
/// queued by a double click, unless it is in the queue, and selected by a click.
pub open spec fn row_action(is_folder: bool, queued: bool, input: RowInput) -> RowAction {
    if is_folder && input.clicked && input.on_box {
        RowAction::ToggleFolder
    } else if (is_folder && input.open_button) || (input.clicked && is_folder) {
        RowAction::Open
    } else if input.double_clicked && !is_folder {
        if queued {
            RowAction::Nothing
        } else {
            RowAction::Queue
        }
    } else if input.clicked && !is_folder {
        RowAction::Select
    } else {
        RowAction::Nothing
    }
}

/// What follows for a row. `queued` says whether its file is in the queue.
pub fn on_row(is_folder: bool, queued: bool, input: RowInput) -> (action: RowAction)
    ensures
        action == row_action(is_folder, queued, input),
{
    if is_folder {
        if input.clicked && input.on_box {
            RowAction::ToggleFolder
        } else if input.open_button || input.clicked {
            RowAction::Open
        } else {
            RowAction::Nothing
        }
    } else if input.double_clicked {
        if queued {
            RowAction::Nothing
        } else {
            RowAction::Queue
        }
    } else if input.clicked {
        RowAction::Select
    } else {
        RowAction::Nothing
    }
}

/// What a row's URL is in: not queued nor downloaded, or one of them.
pub open spec fn is_in(set: Set<Seq<char>>, url: Option<Seq<char>>) -> bool {
    match url {
        Some(u) => set.contains(u),
        None => false,
    }
}

/// Whether a line's file is in the set.
pub fn line_in(set: &StrSet, e: &ListEntry) -> (yes: bool)
    requires
        set.wf(),
    ensures
        yes == is_in(set@, e@.url),
{
    match &e.url {
        Some(u) => set.contains(u.as_str()),
        None => false,
    }
}

impl BrowserState {
    /// The pane after a file was queued by a double click: it is no longer selected.
    pub open spec fn after_queued(self, url: Seq<char>, name: Seq<char>) -> BrowserState {
        BrowserState {
            selected: self.selected.remove(url),
            status_msg: "Queued: "@ + name,
            status_active: true,
            ..self
        }
    }
}

impl Browser {
    /// A file was queued by a double click.
    pub fn note_queued(&mut self, url: &str, name: &str)
        requires
            old(self).wf(),
        ensures
            final(self).wf(),
            final(self)@ == old(self)@.after_queued(url@, name@),
    {
        self.selected.remove(url);
        self.status_msg = concat("Queued: ", name);
        self.status_active = true;
        assert(self@ =~= old(self)@.after_queued(url@, name@));
    }
}

/// The path of a folder of the open folder.
pub fn folder_path(current_path: &str, href: &str) -> (path: String)
    ensures
        path@ == current_path@ + href@,
{
    concat(current_path, href)
}

/// The key of a folder's size.
pub open spec fn folder_key(current_path: Seq<char>, href: Seq<char>) -> Seq<char> {
    if current_path.len() == 0 {
        trim_end_of(href, '/')
    } else {
        trim_end_of(current_path, '/') + "/"@ + trim_end_of(href, '/')
    }
}

/// What the size column shows: for a folder its remembered size, else the one in the index.
pub open spec fn size_cell(
    e: ListRow,
    current_path: Seq<char>,
    remembered: Map<Seq<char>, u64>,
    data: Seq<u8>,
) -> Seq<char> {
    if e.is_folder {
        let key = folder_key(current_path, e.href);
        if remembered.contains_key(key) {
            decimal_size(remembered[key] as nat, " "@)
        } else {
            match recorded_size(data, key) {
                Some(n) => decimal_size(n as nat, " "@),
                None => "—"@,
            }
        }
    } else if e.size.len() == 0 {
        "—"@
    } else {
        e.size
    }
}

/// What the size column shows.
pub fn size_text(
    e: &ListEntry,
    current_path: &str,
    remembered: &StrMap<u64>,
    index: &LocalIndex,
) -> (text: String)
    requires
        remembered.wf(),
        index.wf(),
    ensures
        text@ == size_cell(e@, current_path@, remembered@, index@),
{
    if e.is_folder {
        let name = trim_end_slashes(e.href.as_str());
        let key = if current_path.unicode_len() == 0 {
            name
        } else {
            concat3(trim_end_slashes(current_path).as_str(), "/", name.as_str())
        };
        match remembered.get(key.as_str()) {
            Some(n) => fmt_size(*n),
            None => match folder_size(index, key.as_str()) {
                Some(n) => fmt_size(n),
                None => "—".to_owned(),
            },
        }
    } else if e.size.as_str().unicode_len() == 0 {
        "—".to_owned()
    } else {
        e.size.clone()
    }
}

// ── Queueing the selection ───────────────────────────────────────────────────
/// A file to queue: its URL, its name, and its size as it is shown.
pub struct FileToQueue {
    pub url: String,
    pub name: String,
    pub size: String,
}

#[verifier::ext_equal]
pub struct QueueRow {
    pub url: Seq<char>,
    pub name: Seq<char>,
    pub size: Seq<char>,
}

impl View for FileToQueue {
    type V = QueueRow;

    open spec fn view(&self) -> QueueRow {
        QueueRow { url: self.url@, name: self.name@, size: self.size@ }
    }
}

pub open spec fn queue_rows(list: Seq<FileToQueue>) -> Seq<QueueRow> {
    list.map_values(|f: FileToQueue| f@)
}

/// The selected files that are not queued, in their order.
pub open spec fn selected_lines(
    entries: Seq<ListRow>,
    selected: Set<Seq<char>>,
    queued: Set<Seq<char>>,
) -> Seq<QueueRow>
    decreases entries.len(),
{
    if entries.len() == 0 {
        Seq::empty()
    } else {
        let head = selected_lines(entries.drop_last(), selected, queued);
        let e = entries.last();
        match e.url {
            Some(u) => if !e.is_folder && selected.contains(u) && !queued.contains(u) {
                head.push(QueueRow { url: u, name: e.name, size: e.size })
            } else {
                head
            },
            None => head,
        }
    }
}

/// The selected files that are not queued.
pub fn selected_files(entries: &Vec<ListEntry>, selected: &StrSet, queued: &StrSet) -> (files: Vec<
    FileToQueue,
>)
    requires
        selected.wf(),
        queued.wf(),
    ensures
        queue_rows(files@) == selected_lines(listed(entries@), selected@, queued@),
{
    let ghost view = listed(entries@);
    let mut files: Vec<FileToQueue> = Vec::new();
    let mut i: usize = 0;
    assert(queue_rows(files@) =~= Seq::<QueueRow>::empty());
    while i < entries.len()
        invariant
            view == listed(entries@),
            selected.wf(),
            queued.wf(),
            i <= entries@.len(),
            queue_rows(files@) == selected_lines(view.take(i as int), selected@, queued@),
        decreases entries@.len() - i,
    {
        let e = &entries[i];
        let ghost before = queue_rows(files@);
        proof {
            assert(view.take(i + 1).drop_last() =~= view.take(i as int));
            assert(view.take(i + 1).last() == e@);
        }
        match &e.url {
            Some(u) => {
                if !e.is_folder && selected.contains(u.as_str()) && !queued.contains(u.as_str()) {
                    let f = FileToQueue {
                        url: u.clone(),
                        name: e.name.clone(),
                        size: e.size.clone(),
                    };
                    let ghost r = f@;
                    files.push(f);
                    assert(queue_rows(files@) =~= before.push(r));
                }
            },
            None => {},
        }
        i = i + 1;
    }
    assert(view.take(entries@.len() as int) =~= view);
    files
}

/// The label of the button that queues the selection.
pub open spec fn add_text(files: nat, folders: nat) -> Seq<char> {
    if folders == 0 {
        "+ Add "@ + counted(files, "file"@, "s"@) + " to queue"@
    } else if files == 0 {
        "+ Add "@ + counted(folders, "folder"@, "s"@) + " to queue"@
    } else {
        "+ Add "@ + counted(files, "file"@, "s"@) + " + "@ + counted(folders, "folder"@, "s"@)
    }
}

/// The label of the button that queues the selection.
pub fn add_label(files: usize, folders: usize) -> (text: String)
    ensures
        text@ == add_text(files as nat, folders as nat),
{
    let f = count_of(files, "file", "s");
    let d = count_of(folders, "folder", "s");
    if folders == 0 {
        concat3("+ Add ", f.as_str(), " to queue")
    } else if files == 0 {
        concat3("+ Add ", d.as_str(), " to queue")
    } else {
        let head = concat3("+ Add ", f.as_str(), " + ");
        concat(head.as_str(), d.as_str())
    }
}

/// How many selected files are not queued.
pub fn unqueued_count(selected: &StrSet, queued: &StrSet) -> (n: usize)
    requires
        selected.wf(),
        queued.wf(),
    ensures
        n as nat == selected@.difference(queued@).len(),
{
    let ghost order = selected.order();
    let total: usize = selected.len();
    let ghost mut seen: Set<Seq<char>> = Set::empty();
    let mut n: usize = 0;
    let mut i: usize = 0;
    proof {
        selected.lemma_order();
    }
    while i < total
        invariant
            selected.wf(),
            queued.wf(),
            order == selected.order(),
            order.no_duplicates(),
            i <= total == order.len(),
            n <= i,
            seen.finite(),
            n as nat == seen.len(),
            forall|x: Seq<char>| #[trigger]
                seen.contains(x) <==> order.take(i as int).contains(x) && !queued@.contains(x),
        decreases total - i,
    {
        let url = selected.at(i);
        let ghost u = order[i as int];
        proof {
            assert(order.take(i + 1) =~= order.take(i as int).push(u));
            assert forall|x: Seq<char>| #[trigger] order.take(i + 1).contains(x) <==> order.take(
                i as int,
            ).contains(x) || x == u by {
                if order.take(i as int).contains(x) {
                    let k = choose|k: int| 0 <= k < i && order.take(i as int)[k] == x;
                    assert(order.take(i + 1)[k] == x);
                }
                assert(order.take(i + 1)[i as int] == u);
            }
            assert(!order.take(i as int).contains(u)) by {
                if order.take(i as int).contains(u) {
                    let k = choose|k: int| 0 <= k < i && order.take(i as int)[k] == u;
                    assert(order[k] == order[i as int]);
                }
            }
        }
        if !queued.contains(url.as_str()) {
            n = n + 1;
            proof {
                seen = seen.insert(u);
            }
        }
        i = i + 1;
    }
    proof {
        assert(order.take(total as int) =~= order);
        assert forall|x: Seq<char>| seen.contains(x) <==> selected@.difference(queued@).contains(
            x,
        ) by {
            assert(order.to_set().contains(x) <==> order.contains(x));
        }
        assert(seen =~= selected@.difference(queued@));
    }
    n
}

/// What is said while the selection is queued.
pub open spec fn queueing_text(files: nat, folders: nat) -> Seq<char> {
    "Queuing "@ + counted(files, "file"@, "s"@) + " + "@ + counted(folders, "folder"@, "s"@)
        + "…"@
}

impl BrowserState {
    /// The pane after its selection was queued.
    pub open spec fn after_queueing(self, files: nat, folders: nat) -> BrowserState {
        BrowserState {
            selected: Set::empty(),
            folder_selected: Set::empty(),
            status_msg: if files > 0 || folders > 0 {
                queueing_text(files, folders)
            } else {
                self.status_msg
            },
            status_active: self.status_active || files > 0 || folders > 0,
            ..self
        }
    }
}

impl Browser {
    /// The selection was queued: so many files and folders.
    pub fn note_queueing(&mut self, files: usize, folders: usize)
        requires
            old(self).wf(),
        ensures
            final(self).wf(),
            final(self)@ == old(self)@.after_queueing(files as nat, folders as nat),
    {
        self.selected.clear();
        self.folder_selected.clear();
        if files > 0 || folders > 0 {
            let f = count_of(files, "file", "s");
            let d = count_of(folders, "folder", "s");
            let head = concat3("Queuing ", f.as_str(), " + ");
            self.status_msg = concat3(head.as_str(), d.as_str(), "…");
            self.status_active = true;
        }
        assert(self@ =~= old(self)@.after_queueing(files as nat, folders as nat));
    }
}

// ── What the pane promises ───────────────────────────────────────────────────
/// What arrives for a folder that is no longer open changes nothing.
pub proof fn law_late_folder_dropped(
    state: BrowserState,
    path: Seq<char>,
    entries: Seq<ListRow>,
    bytes: nat,
    error: Seq<char>,
)
    requires
        path != state.current_path,
    ensures
        state.after_lines(path, entries, bytes) == state,
        state.after_error(path, error) == state,
{
}

/// Selecting all obeys the filter: every URL that it selects belongs to a file that passes the
/// filter and is not downloaded, and every such file's URL is selected.
pub proof fn law_select_all_obeys_filter(
    entries: Seq<ListRow>,
    filter: Seq<char>,
    downloaded: Set<Seq<char>>,
)
    ensures
        forall|u: Seq<char>| #[trigger]
            selectable(entries, filter, downloaded).contains(u) <==> exists|i: int|
                0 <= i < entries.len() && !(#[trigger] entries[i]).is_folder && passes_filter(
                    entries[i],
                    filter,
                ) && entries[i].url == Some(u) && !downloaded.contains(u),
    decreases entries.len(),
{
    let after = selectable(entries, filter, downloaded);
    if entries.len() > 0 {
        let head = entries.drop_last();
        let before = selectable(head, filter, downloaded);
        law_select_all_obeys_filter(head, filter, downloaded);
        assert forall|u: Seq<char>| #[trigger] after.contains(u) <==> exists|i: int|
            0 <= i < entries.len() && !(#[trigger] entries[i]).is_folder && passes_filter(
                entries[i],
                filter,
            ) && entries[i].url == Some(u) && !downloaded.contains(u) by {
            if after.contains(u) {
                let k = choose|k: int| 0 <= k < after.len() && after[k] == u;
                if k < before.len() {
                    assert(before[k] == u);
                    assert(before.contains(u));
                    let i = choose|i: int|
                        0 <= i < head.len() && !(#[trigger] head[i]).is_folder && passes_filter(
                            head[i],
                            filter,
                        ) && head[i].url == Some(u) && !downloaded.contains(u);
                    assert(entries[i] == head[i]);
                } else {
                    assert(entries[entries.len() - 1].url == Some(u));
                }
            }
            if exists|i: int|
                0 <= i < entries.len() && !(#[trigger] entries[i]).is_folder && passes_filter(
                    entries[i],
                    filter,
                ) && entries[i].url == Some(u) && !downloaded.contains(u) {
                let i = choose|i: int|
                    0 <= i < entries.len() && !(#[trigger] entries[i]).is_folder && passes_filter(
                        entries[i],
                        filter,
                    ) && entries[i].url == Some(u) && !downloaded.contains(u);
                if i < head.len() {
                    assert(head[i] == entries[i]);
                    assert(before.contains(u));
                    let k = choose|k: int| 0 <= k < before.len() && before[k] == u;
                    assert(after[k] == u);
                } else {
                    assert(after[before.len() as int] == u);
                }
            }
        }
    }
}

/// From no selection, pressing the button that selects all twice leads back to no selection.
pub proof fn law_select_all_twice(state: BrowserState, downloaded: Set<Seq<char>>)
    requires
        !state.has_selection(),
    ensures
        !state.after_select_all(downloaded).after_select_all(downloaded).has_selection(),
{
    let once = state.after_select_all(downloaded);
    if !once.has_selection() {
        assert(once.after_select_all(downloaded).selected =~= once.selected);
    }
}

/// Opening a folder empties the pane and its selection and filter and starts to load; the way to the
/// folder and what is to be highlighted stay for the caller to set.
pub proof fn law_navigation(state: BrowserState, path: Seq<char>)
    ensures
        ({
            let after = state.navigated(path);
            &&& after.current_path == path
            &&& after.entries.len() == 0
            &&& after.loading && after.load_error is None
            &&& after.filter_query.len() == 0
            &&& after.selected == Set::<Seq<char>>::empty()
            &&& after.folder_selected == Set::<Seq<char>>::empty()
            &&& after.last_clicked is None
            &&& !after.force_refresh
            &&& after.status_active
            &&& after.crumbs == state.crumbs
            &&& after.search_highlight == state.search_highlight
            &&& after.highlight_url == state.highlight_url
            &&& after.scroll_to_highlight == state.scroll_to_highlight
            &&& after.restore_scroll == state.restore_scroll
        }),
{
}

/// A folder is fetched from its path under the archive's root.
pub proof fn law_fetch(fetch: Fetch, path: Seq<char>, force: bool)
    ensures
        is_fetch(fetch, path, force) <==> fetch.url@ == "https://myrient.erista.me/files/"@ + path
            && fetch.path@ == path && fetch.force == force,
{
}

/// Folders and files are counted line by line.
pub proof fn law_counted_lines(entries: Seq<ListRow>, e: ListRow, filter: Seq<char>)
    ensures
        lines_of(Seq::empty(), true) == 0 && lines_of(Seq::empty(), false) == 0,
        passing_lines(Seq::empty(), filter, true) == 0 && passing_lines(
            Seq::empty(),
            filter,
            false,
        ) == 0,
        lines_of(entries.push(e), true) == lines_of(entries, true) + (if e.is_folder {
            1nat
        } else {
            0
        }),
        lines_of(entries.push(e), false) == lines_of(entries, false) + (if e.is_folder {
            0nat
        } else {
            1
        }),
        passing_lines(entries.push(e), filter, true) == passing_lines(entries, filter, true) + (
        if e.is_folder && passes_filter(e, filter) {
            1nat
        } else {
            0
        }),
        passing_lines(entries.push(e), filter, false) == passing_lines(entries, filter, false) + (
        if !e.is_folder && passes_filter(e, filter) {
            1nat
        } else {
            0
        }),
{
    assert(entries.push(e).drop_last() =~= entries);
}

/// The filter lets a line pass where its name, in lower case, holds the query in lower case; without
/// a query every line passes.
pub proof fn law_filter(e: ListRow, query: Seq<char>)
    ensures
        passes_filter(e, filter_of(Seq::empty())),
        query.len() > 0 && lowercase(query).len() > 0 ==> (passes_filter(e, filter_of(query)) <==>
        occurs_in(lowercase(query), lowercase(e.name))),
{
}

/// The summary names what there is, with its number and the bytes, and "Empty" where there is
/// nothing.
pub proof fn law_summary(folders: nat, files: nat, bytes: nat)
    ensures
        summary_text(0, 0, 0) == "Empty"@,
        folders > 0 ==> summary_text(folders, 0, 0) == counted(folders, "folder"@, "s"@),
        files > 0 ==> summary_text(0, files, 0) == counted(files, "file"@, "s"@),
        bytes > 0 ==> summary_text(0, 0, bytes) == decimal_size(bytes, " "@),
        folders > 0 && files > 0 ==> summary_text(folders, files, 0) == counted(
            folders,
            "folder"@,
            "s"@,
        ) + "  ·  "@ + counted(files, "file"@, "s"@),
        files > 0 && bytes > 0 ==> summary_text(0, files, bytes) == counted(files, "file"@, "s"@)
            + "  ·  "@ + decimal_size(bytes, " "@),
        folders > 0 && bytes > 0 ==> summary_text(folders, 0, bytes) == counted(
            folders,
            "folder"@,
            "s"@,
        ) + "  ·  "@ + decimal_size(bytes, " "@),
        folders > 0 && files > 0 && bytes > 0 ==> summary_text(folders, files, bytes) == counted(
            folders,
            "folder"@,
            "s"@,
        ) + "  ·  "@ + counted(files, "file"@, "s"@) + "  ·  "@ + decimal_size(bytes, " "@),
{
    let sep = "  ·  "@;
    let f = counted(folders, "folder"@, "s"@);
    let n = counted(files, "file"@, "s"@);
    let b = decimal_size(bytes, " "@);
    let none = Seq::<Seq<char>>::empty();
    law_joined(none, f, sep);
    law_joined(none, n, sep);
    law_joined(none, b, sep);
    law_joined(seq![f], n, sep);
    law_joined(seq![f], b, sep);
    law_joined(seq![n], b, sep);
    law_joined(seq![f, n], b, sep);
    if folders > 0 {
        assert(summary_parts(folders, 0, 0) =~= seq![f]);
    }
    if files > 0 {
        assert(summary_parts(0, files, 0) =~= seq![n]);
    }
    if bytes > 0 {
        assert(summary_parts(0, 0, bytes) =~= seq![b]);
    }
    if folders > 0 && files > 0 {
        assert(summary_parts(folders, files, 0) =~= seq![f].push(n));
        assert(seq![f].push(n) =~= seq![f, n]);
    }
    if folders > 0 && bytes > 0 {
        assert(summary_parts(folders, 0, bytes) =~= seq![f].push(b));
    }
    if files > 0 && bytes > 0 {
        assert(summary_parts(0, files, bytes) =~= seq![n].push(b));
    }
    if folders > 0 && files > 0 && bytes > 0 {
        assert(summary_parts(folders, files, bytes) =~= seq![f, n].push(b));
    }
}

/// The files of a name, whatever its case, in their order.
pub proof fn law_urls_named(entries: Seq<ListRow>, e: ListRow, name: Seq<char>)
    ensures
        urls_named(Seq::empty(), name) == Seq::<Seq<char>>::empty(),
        !e.is_folder && e.url is Some && lowercase(e.name) == lowercase(name) ==> urls_named(
            entries.push(e),
            name,
        ) == urls_named(entries, name).push(e.url->0),
        e.is_folder || e.url is None || lowercase(e.name) != lowercase(name) ==> urls_named(
            entries.push(e),
            name,
        ) == urls_named(entries, name),
{
    assert(entries.push(e).drop_last() =~= entries);
}

/// When the open folder comes, its lines are shown and summed up. The pane scrolls to where the
/// folder was left, unless a file is to be highlighted: then every file of that name is selected, and
/// the pane scrolls to the last of them.
pub proof fn law_folder_arrives(state: BrowserState, entries: Seq<ListRow>, bytes: nat)
    ensures
        ({
            let after = state.after_lines(state.current_path, entries, bytes);
            &&& after.entries == entries
            &&& !after.loading && !after.status_active && after.load_error is None
            &&& after.status_msg == summary_text(
                lines_of(entries, true),
                lines_of(entries, false),
                bytes,
            )
            &&& after.current_path == state.current_path && after.crumbs == state.crumbs
                && after.filter_query == state.filter_query && after.folder_selected
                == state.folder_selected
            &&& after.search_highlight is None
            &&& match state.search_highlight {
                None => after.restore_scroll && after.selected == state.selected
                    && after.highlight_url == state.highlight_url && after.scroll_to_highlight
                    == state.scroll_to_highlight,
                Some(name) => {
                    let urls = urls_named(entries, name);
                    &&& !after.restore_scroll
                    &&& forall|u: Seq<char>| #[trigger]
                        after.selected.contains(u) <==> state.selected.contains(u) || urls.contains(
                            u,
                        )
                    &&& urls.len() > 0 ==> after.highlight_url == Some(urls.last())
                        && after.scroll_to_highlight == 2
                    &&& urls.len() == 0 ==> after.highlight_url == state.highlight_url
                        && after.scroll_to_highlight == state.scroll_to_highlight
                },
            }
        }),
{
    if let Some(name) = state.search_highlight {
        let urls = urls_named(entries, name);
        let after = state.after_lines(state.current_path, entries, bytes);
        assert forall|u: Seq<char>| #[trigger]
            after.selected.contains(u) <==> state.selected.contains(u) || urls.contains(u) by {
            assert(urls.to_set().contains(u) <==> urls.contains(u));
        }
    }
}

/// When the open folder cannot be had, the pane says why, and nothing else changes.
pub proof fn law_folder_fails(state: BrowserState, error: Seq<char>)
    ensures
        state.after_error(state.current_path, error) == (BrowserState {
            loading: false,
            status_active: false,
            load_error: Some(error),
            status_msg: "Error: "@ + error,
            ..state
        }),
{
}

/// A file is found at its first line, and a line at its first row.
pub proof fn law_found_line(entries: Seq<ListRow>, url: Seq<char>, shown: Seq<int>, line: int)
    ensures
        match line_at_url(entries, url) {
            Some(i) => 0 <= i < entries.len() && entries[i].url == Some(url) && (forall|k: int|
                0 <= k < i ==> (#[trigger] entries[k]).url != Some(url)),
            None => forall|k: int|
                0 <= k < entries.len() ==> (#[trigger] entries[k]).url != Some(url),
        },
        match row_of(shown, line) {
            Some(i) => 0 <= i < shown.len() && shown[i] == line && (forall|k: int|
                0 <= k < i ==> #[trigger] shown[k] != line),
            None => forall|k: int| 0 <= k < shown.len() ==> #[trigger] shown[k] != line,
        },
    decreases entries.len() + shown.len(),
{
    if entries.len() > 0 {
        let head = entries.drop_last();
        law_found_line(head, url, shown, line);
        assert forall|k: int| 0 <= k < head.len() implies head[k] == #[trigger] entries[k] by {}
    } else if shown.len() > 0 {
        let head = shown.drop_last();
        law_found_line(entries, url, head, line);
        assert forall|k: int| 0 <= k < head.len() implies head[k] == #[trigger] shown[k] by {}
    }
}

/// The pane scrolls to a highlighted file for as many frames as are owed, and then forgets it.
pub proof fn law_scrolling(state: BrowserState, shown: Seq<int>)
    ensures
        state.scroll_to_highlight == 0 ==> state.scroll_row(shown) is None && state.after_scroll(
            shown,
        ) == (BrowserState { restore_scroll: false, ..state }),
        state.highlight_url is None ==> state.scroll_row(shown) is None,
        state.scroll_to_highlight > 0 && state.highlight_url is Some ==> ({
            let line = line_at_url(state.entries, state.highlight_url->0);
            &&& line is None ==> state.scroll_row(shown) is None && state.after_scroll(shown)
                == state
            &&& line is Some && row_of(shown, line->0) is Some ==> state.scroll_row(shown)
                == row_of(shown, line->0)
            &&& line is Some && row_of(shown, line->0) is None ==> state.scroll_row(shown) == line
            &&& line is Some && state.scroll_to_highlight == 1 ==> state.after_scroll(shown) == (
            BrowserState { scroll_to_highlight: 0, highlight_url: None, ..state })
            &&& line is Some && state.scroll_to_highlight > 1 ==> state.after_scroll(shown) == (
            BrowserState {
                scroll_to_highlight: (state.scroll_to_highlight - 1) as u8,
                ..state
            })
        }),
{
}

/// What can be selected, line by line: a file that passes the filter and is not downloaded.
pub proof fn law_selectable(
    entries: Seq<ListRow>,
    e: ListRow,
    filter: Seq<char>,
    downloaded: Set<Seq<char>>,
)
    ensures
        selectable(Seq::empty(), filter, downloaded) == Seq::<Seq<char>>::empty(),
        !e.is_folder && e.url is Some && passes_filter(e, filter) && !downloaded.contains(e.url->0)
            ==> selectable(entries.push(e), filter, downloaded) == selectable(
            entries,
            filter,
            downloaded,
        ).push(e.url->0),
        e.is_folder || e.url is None || !passes_filter(e, filter) || downloaded.contains(e.url->0)
            ==> selectable(entries.push(e), filter, downloaded) == selectable(
            entries,
            filter,
            downloaded,
        ),
{
    assert(entries.push(e).drop_last() =~= entries);
}

/// The button that selects all deselects everything where anything is selected, files or folders; it
/// selects every file that can be selected where nothing is.
pub proof fn law_select_all(state: BrowserState, downloaded: Set<Seq<char>>, u: Seq<char>)
    ensures
        state.selected.contains(u) || state.folder_selected.contains(u) ==> state.after_select_all(
            downloaded,
        ) == (BrowserState { selected: Set::empty(), folder_selected: Set::empty(), ..state }),
        state.selected == Set::<Seq<char>>::empty() && state.folder_selected
            == Set::<Seq<char>>::empty() ==> {
            let after = state.after_select_all(downloaded);
            &&& after == (BrowserState { selected: after.selected, ..state })
            &&& after.selected.contains(u) <==> selectable(
                state.entries,
                filter_of(state.filter_query),
                downloaded,
            ).contains(u)
        },
{
}

/// A folder's box selects it, or deselects it where it was selected, and changes nothing else.
pub proof fn law_folder_box(state: BrowserState, path: Seq<char>, other: Seq<char>)
    ensures
        ({
            let after = state.after_folder_box(path);
            &&& after.folder_selected.contains(path) <==> !state.folder_selected.contains(path)
            &&& other != path ==> (after.folder_selected.contains(other) <==>
            state.folder_selected.contains(other))
            &&& after == (BrowserState { folder_selected: after.folder_selected, ..state })
        }),
{
}

/// A range holds the files of the shown lines from one row to the other, both included, and no
/// folder.
pub proof fn law_range(entries: Seq<ListRow>, shown: Seq<int>, lo: int, hi: int, u: Seq<char>)
    ensures
        range_urls(entries, shown, lo, hi).contains(u) <==> exists|k: int|
            lo <= k <= hi && 0 <= k < shown.len() && !entries[#[trigger] shown[k]].is_folder
                && entries[shown[k]].url == Some(u),
    decreases hi - lo + 1,
{
    if lo <= hi {
        law_range(entries, shown, lo, hi - 1, u);
        let before = range_urls(entries, shown, lo, hi - 1);
        if range_urls(entries, shown, lo, hi).contains(u) && !before.contains(u) {
            assert(!entries[shown[hi]].is_folder && entries[shown[hi]].url == Some(u));
        }
        if exists|k: int|
            lo <= k <= hi && 0 <= k < shown.len() && !entries[#[trigger] shown[k]].is_folder
                && entries[shown[k]].url == Some(u) {
            let k = choose|k: int|
                lo <= k <= hi && 0 <= k < shown.len() && !entries[#[trigger] shown[k]].is_folder
                    && entries[shown[k]].url == Some(u);
            if k < hi {
                assert(before.contains(u));
            }
        }
    }
}

/// What a click on a file selects. A plain click selects the file alone, and deselects it where it
/// was selected; with the control key the others stay; with shift the range from the row that was
/// clicked last is selected too. A file that is queued or downloaded is not selected by a click.
pub proof fn law_click(
    state: BrowserState,
    shown: Seq<int>,
    at: usize,
    url: Seq<char>,
    taken: bool,
    u: Seq<char>,
)
    ensures
        ({
            let plain = state.after_click(shown, at, url, false, false, taken);
            let ctrl = state.after_click(shown, at, url, false, true, taken);
            let shift = state.after_click(shown, at, url, true, false, taken);
            let from = match state.last_clicked {
                Some(a) => a as int,
                None => at as int,
            };
            &&& state.selected.contains(url) ==> plain == (BrowserState {
                selected: state.selected.remove(url),
                last_clicked: None,
                ..state
            }) && ctrl == (BrowserState { selected: state.selected.remove(url), ..state })
            &&& !state.selected.contains(url) && !taken ==> {
                &&& plain.selected.contains(u) <==> u == url
                &&& ctrl.selected.contains(u) <==> u == url || state.selected.contains(u)
                &&& plain == (BrowserState {
                    selected: plain.selected,
                    last_clicked: Some(at),
                    ..state
                })
                &&& ctrl == (BrowserState {
                    selected: ctrl.selected,
                    last_clicked: Some(at),
                    ..state
                })
            }
            &&& !state.selected.contains(url) && taken ==> plain == state && ctrl == (BrowserState {
                last_clicked: Some(at),
                ..state
            })
            &&& shift == (BrowserState { selected: shift.selected, ..state })
            &&& from <= at ==> (shift.selected.contains(u) <==> state.selected.contains(u)
                || range_urls(state.entries, shown, from, at as int).contains(u))
            &&& at <= from ==> (shift.selected.contains(u) <==> state.selected.contains(u)
                || range_urls(state.entries, shown, at as int, from).contains(u))
            &&& state.after_click(shown, at, url, true, true, taken) == shift
        }),
{
}

/// What follows for a row, action by action.
pub proof fn law_row_action(is_folder: bool, queued: bool, input: RowInput)
    ensures
        ({
            let action = row_action(is_folder, queued, input);
            &&& action is ToggleFolder <==> is_folder && input.clicked && input.on_box
            &&& action is Open <==> is_folder && (input.open_button || input.clicked) && !(
            input.clicked && input.on_box)
            &&& action is Queue <==> !is_folder && input.double_clicked && !queued
            &&& action is Select <==> !is_folder && input.clicked && !input.double_clicked
        }),
{
}

/// A file that was queued by a double click is no longer selected, and the others stay selected.
pub proof fn law_queued_deselected(
    state: BrowserState,
    url: Seq<char>,
    name: Seq<char>,
    other: Seq<char>,
)
    ensures
        ({
            let after = state.after_queued(url, name);
            &&& !after.selected.contains(url)
            &&& other != url ==> (after.selected.contains(other) <==> state.selected.contains(
                other,
            ))
            &&& after == (BrowserState {
                selected: after.selected,
                status_msg: "Queued: "@ + name,
                status_active: true,
                ..state
            })
        }),
        is_in(state.selected, Some(url)) <==> state.selected.contains(url),
        !is_in(state.selected, None),
{
}

/// A folder's size is known under its path: its name behind the open folder's path.
pub proof fn law_folder_key(path: Seq<char>, name: Seq<char>, slashes: nat)
    requires
        name.len() > 0,
        name.last() != '/',
        path.len() == 0 || path.last() != '/',
    ensures
        path.len() == 0 ==> folder_key(path, name + Seq::new(slashes, |i: int| '/')) == name,
        path.len() > 0 ==> folder_key(
            path.push('/'),
            name + Seq::new(slashes, |i: int| '/'),
        ) == path + "/"@ + name,
{
    law_trim_end(name, '/', slashes);
    law_trim_end(path, '/', 1);
    assert(path + Seq::new(1, |i: int| '/') =~= path.push('/'));
}

/// The size column: a file's size as it is listed; a folder's as it is remembered, else as the index
/// has it; a dash where there is none.
pub proof fn law_size_cell(
    e: ListRow,
    path: Seq<char>,
    remembered: Map<Seq<char>, u64>,
    data: Seq<u8>,
)
    ensures
        ({
            let cell = size_cell(e, path, remembered, data);
            let key = folder_key(path, e.href);
            &&& !e.is_folder && e.size.len() > 0 ==> cell == e.size
            &&& !e.is_folder && e.size.len() == 0 ==> cell == "—"@
            &&& e.is_folder && remembered.contains_key(key) ==> cell == decimal_size(
                remembered[key] as nat,
                " "@,
            )
            &&& e.is_folder && !remembered.contains_key(key) && recorded_size(data, key) is Some
                ==> cell == decimal_size(recorded_size(data, key)->0 as nat, " "@)
            &&& e.is_folder && !remembered.contains_key(key) && recorded_size(data, key) is None
                ==> cell == "—"@
        }),
{
}

/// The selected files go to the queue in their order, without those that are in it.
pub proof fn law_selected_lines(
    entries: Seq<ListRow>,
    e: ListRow,
    selected: Set<Seq<char>>,
    queued: Set<Seq<char>>,
)
    ensures
        selected_lines(Seq::empty(), selected, queued) == Seq::<QueueRow>::empty(),
        !e.is_folder && e.url is Some && selected.contains(e.url->0) && !queued.contains(e.url->0)
            ==> selected_lines(entries.push(e), selected, queued) == selected_lines(
            entries,
            selected,
            queued,
        ).push(QueueRow { url: e.url->0, name: e.name, size: e.size }),
        e.is_folder || e.url is None || !selected.contains(e.url->0) || queued.contains(e.url->0)
            ==> selected_lines(entries.push(e), selected, queued) == selected_lines(
            entries,
            selected,
            queued,
        ),
{
    assert(entries.push(e).drop_last() =~= entries);
}

/// After files and folders were queued nothing is selected any more.
pub proof fn law_queueing_deselects(state: BrowserState, files: nat, folders: nat)
    ensures
        ({
            let after = state.after_queueing(files, folders);
            &&& after.selected == Set::<Seq<char>>::empty()
            &&& after.folder_selected == Set::<Seq<char>>::empty()
            &&& files == 0 && folders == 0 ==> after.status_msg == state.status_msg
                && after.status_active == state.status_active
            &&& files > 0 || folders > 0 ==> after.status_active && after.status_msg == "Queuing "@
                + counted(files, "file"@, "s"@) + " + "@ + counted(folders, "folder"@, "s"@)
                + "…"@
            &&& after == (BrowserState {
                selected: after.selected,
                folder_selected: after.folder_selected,
                status_msg: after.status_msg,
                status_active: after.status_active,
                ..state
            })
        }),
{
}

/// What is said of the lines that pass the filter, and of what is to be queued.
pub proof fn law_numbers_told(files: nat, folders: nat)
    ensures
        found_text(0, files) == counted(files, "file"@, "s"@),
        folders > 0 ==> found_text(folders, 0) == counted(folders, "folder"@, "s"@),
        folders > 0 && files > 0 ==> found_text(folders, files) == decimal(files) + "f "@ + decimal(
            folders,
        ) + "d"@,
        add_text(files, 0) == "+ Add "@ + counted(files, "file"@, "s"@) + " to queue"@,
        folders > 0 ==> add_text(0, folders) == "+ Add "@ + counted(folders, "folder"@, "s"@)
            + " to queue"@,
        folders > 0 && files > 0 ==> add_text(files, folders) == "+ Add "@ + counted(
            files,
            "file"@,
            "s"@,
        ) + " + "@ + counted(folders, "folder"@, "s"@),
{
}

/// The steps of the way, the rows that are shown and the files to queue are told one by one.
pub proof fn law_told_one_by_one(
    crumbs: Seq<Crumb>,
    shown: Seq<usize>,
    files: Seq<FileToQueue>,
    i: int,
)
    ensures
        way(crumbs).len() == crumbs.len() && as_ints(shown).len() == shown.len() && queue_rows(
            files,
        ).len() == files.len(),
        0 <= i < crumbs.len() ==> way(crumbs)[i] == (crumbs[i].label@, crumbs[i].path@),
        0 <= i < shown.len() ==> as_ints(shown)[i] == shown[i],
        0 <= i < files.len() ==> queue_rows(files)[i].url == files[i].url@ && queue_rows(
            files,
        )[i].name == files[i].name@ && queue_rows(files)[i].size == files[i].size@,
{
}

} // verus!
