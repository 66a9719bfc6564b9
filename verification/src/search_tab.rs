//! The search tab: the query with its filters, the results, and what is selected among them.

use crate::browser::{is_fetch, urls_named, way, Browser, BrowserState, Crumb, Fetch};
use crate::generated_dirs::{is_top_level, top_level_folders, LocalIndex};
use crate::index::index_map;
use crate::listing::ListRow;
use crate::search::{
    result_address, result_url, results_view, search_results, shown_results, IndexedFile,
    ResultRow, SearchData, SearchResult,
};
use crate::sort::text_before;
use crate::strmap::StrSet;
use crate::text::{
    clip, clipped, concat, concat3, has_char, lowercase, same_text, segments, split_segments, texts,
    to_lower,
};
use crate::url_text::{decoded, url_decode};
use vstd::prelude::*;

verus! {

/// The search tab.
pub struct SearchTab {
    pub query: String,
    pub only: String,
    pub exclude: String,
    pub last_query: String,
    pub last_only: String,
    pub last_exclude: String,
    pub results: Vec<SearchResult>,
    /// The paths of the selected results.
    pub selected: StrSet,
}

/// The state of the search tab.
#[verifier::ext_equal]
pub struct SearchState {
    pub query: Seq<char>,
    pub only: Seq<char>,
    pub exclude: Seq<char>,
    pub last_query: Seq<char>,
    pub last_only: Seq<char>,
    pub last_exclude: Seq<char>,
    pub results: Seq<ResultRow>,
    pub selected: Set<Seq<char>>,
}

impl View for SearchTab {
    type V = SearchState;

    open spec fn view(&self) -> SearchState {
        SearchState {
            query: self.query@,
            only: self.only@,
            exclude: self.exclude@,
            last_query: self.last_query@,
            last_only: self.last_only@,
            last_exclude: self.last_exclude@,
            results: results_view(self.results@),
            selected: self.selected@,
        }
    }
}

/// What the search tab shows.
#[derive(Clone, Copy, PartialEq, Eq, Structural)]
pub enum Shown {
    /// A hint: there is no query.
    Hint,
    /// That the search index is being built.
    Building,
    /// The results.
    Results,
}

impl SearchState {
    /// Without a query, and without results.
    pub open spec fn cleared(self) -> SearchState {
        SearchState { query: Seq::empty(), results: Seq::empty(), selected: Set::empty(), ..self }
    }

    /// Whether query or filters are not those of the results.
    pub open spec fn changed(self) -> bool {
        ||| lowercase(self.query) != self.last_query
        ||| lowercase(self.only) != self.last_only
        ||| lowercase(self.exclude) != self.last_exclude
    }

    /// With the results of query and filters, where those changed.
    pub open spec fn updated(self, files: Seq<IndexedFile>) -> SearchState {
        if self.changed() {
            SearchState {
                results: shown_results(
                    files,
                    lowercase(self.query),
                    lowercase(self.only),
                    lowercase(self.exclude),
                ),
                last_query: lowercase(self.query),
                last_only: lowercase(self.only),
                last_exclude: lowercase(self.exclude),
                ..self
            }
        } else {
            self
        }
    }

    /// After a click with a modifier key on the result with the given path: it is selected, or
    /// deselected.
    pub open spec fn toggled(self, path: Seq<char>) -> SearchState {
        SearchState {
            selected: if self.selected.contains(path) {
                self.selected.remove(path)
            } else {
                self.selected.insert(path)
            },
            ..self
        }
    }
}

impl SearchTab {
    pub open spec fn wf(&self) -> bool {
        self.selected.wf()
    }

    pub fn new() -> (tab: Self)
        ensures
            tab.wf(),
            tab@ == (SearchState {
                query: Seq::empty(),
                only: Seq::empty(),
                exclude: Seq::empty(),
                last_query: Seq::empty(),
                last_only: Seq::empty(),
                last_exclude: Seq::empty(),
                results: Seq::empty(),
                selected: Set::empty(),
            }),
    {
        SearchTab {
            query: String::new(),
            only: String::new(),
            exclude: String::new(),
            last_query: String::new(),
            last_only: String::new(),
            last_exclude: String::new(),
            results: Vec::new(),
            selected: StrSet::new(),
        }
    }

    /// Takes the query back.
    pub fn clear(&mut self)
        requires
            old(self).wf(),
        ensures
            final(self).wf(),
            final(self)@ == old(self)@.cleared(),
    {
        self.query = String::new();
        self.results = Vec::new();
        self.selected.clear();
        assert(self@ =~= old(self)@.cleared());
    }

    /// Brings the results up to date, where there is a query and a search index. Returns what is
    /// to be shown.
    pub fn update(&mut self, slot: &Option<SearchData>) -> (shown: Shown)
        requires
            old(self).wf(),
        ensures
            final(self).wf(),
            shown == if old(self)@.query.len() == 0 {
                Shown::Hint
            } else if *slot is None {
                Shown::Building
            } else {
                Shown::Results
            },
            final(self)@ == match *slot {
                Some(data) => if old(self)@.query.len() == 0 {
                    old(self)@
                } else {
                    old(self)@.updated(data@)
                },
                None => old(self)@,
            },
    {
        if self.query.as_str().unicode_len() == 0 {
            return Shown::Hint;
        }
        if slot.is_none() {
            return Shown::Building;
        }
        let q = to_lower(self.query.as_str());
        let only = to_lower(self.only.as_str());
        let exclude = to_lower(self.exclude.as_str());
        if !same_text(q.as_str(), self.last_query.as_str()) || !same_text(
            only.as_str(),
            self.last_only.as_str(),
        ) || !same_text(exclude.as_str(), self.last_exclude.as_str()) {
            self.results = search_results(slot, q.as_str(), only.as_str(), exclude.as_str());
            self.last_query = q;
            self.last_only = only;
            self.last_exclude = exclude;
        }
        assert(slot matches Some(data) && self@ =~= old(self)@.updated(data@));
        Shown::Results
    }

    /// A click with a modifier key on the result with the given path.
    pub fn toggle(&mut self, path: &str)
        requires
            old(self).wf(),
        ensures
            final(self).wf(),
            final(self)@ == old(self)@.toggled(path@),
    {
        if self.selected.contains(path) {
            self.selected.remove(path);
        } else {
            self.selected.insert(path.to_owned());
        }
        assert(self@ =~= old(self)@.toggled(path@));
    }
}

/// What a click on a result leads to: a plain click goes to the result's folder, one with a
/// modifier key selects the result.
#[derive(Clone, Copy, PartialEq, Eq, Structural)]
pub enum ResultAction {
    Nothing,
    /// Queue the file.
    Queue,
    /// Go to the file's folder and show the file.
    Open,
    /// Select or deselect the result.
    Select,
}

/// What follows for a result: the buttons come first; a click opens the result, and selects it
/// where a modifier key is held.
pub open spec fn result_action(
    clicked: bool,
    open_button: bool,
    queue_button: bool,
    modifier: bool,
) -> ResultAction {
    if open_button {
        ResultAction::Open
    } else if queue_button {
        ResultAction::Queue
    } else if clicked && modifier {
        ResultAction::Select
    } else if clicked {
        ResultAction::Open
    } else {
        ResultAction::Nothing
    }
}

/// What a click on a result leads to.
pub fn on_result(clicked: bool, open_button: bool, queue_button: bool, modifier: bool) -> (action:
    ResultAction)
    ensures
        action == result_action(clicked, open_button, queue_button, modifier),
{
    if open_button {
        ResultAction::Open
    } else if queue_button {
        ResultAction::Queue
    } else if clicked && modifier {
        ResultAction::Select
    } else if clicked {
        ResultAction::Open
    } else {
        ResultAction::Nothing
    }
}

// ── Going to a result ────────────────────────────────────────────────────────
/// The way to a folder, step by step: each step shows the decoded segment, where there is one, and
/// leads to the path up to its segment.
pub open spec fn steps_to(raw: Seq<Seq<char>>, labels: Seq<Seq<char>>) -> Seq<
    (Seq<char>, Seq<char>),
>
    decreases raw.len(),
{
    if raw.len() == 0 {
        Seq::empty()
    } else {
        let i = raw.len() - 1;
        steps_to(raw.drop_last(), labels).push(
            (
                if i < labels.len() {
                    labels[i]
                } else {
                    raw[i]
                },
                path_of(raw),
            ),
        )
    }
}

/// The path that segments make: a slash after each.
pub open spec fn path_of(raw: Seq<Seq<char>>) -> Seq<char>
    decreases raw.len(),
{
    if raw.len() == 0 {
        Seq::empty()
    } else {
        path_of(raw.drop_last()) + raw.last() + "/"@
    }
}

/// The way to a folder, given by its path and its decoded path.
pub fn crumbs_to(raw_folder: &str, folder: &str) -> (out: (Vec<Crumb>, String))
    ensures
        way(out.0@) == steps_to(segments(raw_folder@), segments(folder@)),
        out.1@ == path_of(segments(raw_folder@)),
{
    let raw = split_segments(raw_folder);
    let labels = split_segments(folder);
    let ghost r = texts(raw@);
    let ghost l = texts(labels@);
    let mut crumbs: Vec<Crumb> = Vec::new();
    let mut path = String::new();
    let mut i: usize = 0;
    assert(way(crumbs@) =~= Seq::<(Seq<char>, Seq<char>)>::empty());
    assert(path@ =~= path_of(r.take(0)));
    while i < raw.len()
        invariant
            r == texts(raw@),
            l == texts(labels@),
            i <= raw@.len(),
            way(crumbs@) == steps_to(r.take(i as int), l),
            path@ == path_of(r.take(i as int)),
        decreases raw@.len() - i,
    {
        let ghost before = way(crumbs@);
        proof {
            assert(r.take(i + 1).drop_last() =~= r.take(i as int));
            assert(r.take(i + 1).last() == raw@[i as int]@);
            assert(r[i as int] == raw@[i as int]@);
        }
        path = concat3(path.as_str(), raw[i].as_str(), "/");
        let label: String = if i < labels.len() {
            assert(l[i as int] == labels@[i as int]@);
            labels[i].clone()
        } else {
            raw[i].clone()
        };
        let crumb = Crumb { label, path: path.clone() };
        let ghost c = crumb@;
        crumbs.push(crumb);
        assert(way(crumbs@) =~= before.push(c));
        i = i + 1;
    }
    assert(r.take(raw@.len() as int) =~= r);
    (crumbs, path)
}

impl Browser {
    /// Goes to a result's folder, to show the file with the given name there.
    pub fn open_result(&mut self, raw_folder: &str, folder: &str, name: &str) -> (fetch: Fetch)
        requires
            old(self).wf(),
        ensures
            final(self).wf(),
            final(self)@ == (BrowserState {
                crumbs: steps_to(segments(raw_folder@), segments(folder@)),
                search_highlight: Some(name@),
                ..old(self)@
            }).navigated(path_of(segments(raw_folder@))),
            is_fetch(fetch, path_of(segments(raw_folder@)), old(self).force_refresh),
    {
        let (crumbs, path) = crumbs_to(raw_folder, folder);
        self.crumbs = crumbs;
        self.search_highlight = Some(name.to_owned());
        assert(self@ =~= (BrowserState {
            crumbs: steps_to(segments(raw_folder@), segments(folder@)),
            search_highlight: Some(name@),
            ..old(self)@
        }));
        self.navigate(path)
    }
}

// ── Queueing results ─────────────────────────────────────────────────────────
/// A result to queue, with its file's URL.
pub struct ResultToQueue {
    pub url: String,
    pub name: String,
    pub size_bytes: u64,
    pub folder: String,
}

#[verifier::ext_equal]
pub struct ResultJob {
    pub url: Seq<char>,
    pub name: Seq<char>,
    pub size_bytes: u64,
    pub folder: Seq<char>,
}

impl View for ResultToQueue {
    type V = ResultJob;

    open spec fn view(&self) -> ResultJob {
        ResultJob {
            url: self.url@,
            name: self.name@,
            size_bytes: self.size_bytes,
            folder: self.folder@,
        }
    }
}

pub open spec fn result_jobs(list: Seq<ResultToQueue>) -> Seq<ResultJob> {
    list.map_values(|r: ResultToQueue| r@)
}

pub open spec fn result_job(data: Seq<u8>, r: ResultRow) -> ResultJob {
    ResultJob {
        url: result_address(data, r.raw_folder, r.full_path),
        name: r.name,
        size_bytes: r.size_bytes,
        folder: r.folder,
    }
}

/// The selected results, in their order, as they are queued.
pub open spec fn selected_results(
    data: Seq<u8>,
    results: Seq<ResultRow>,
    selected: Set<Seq<char>>,
) -> Seq<ResultJob>
    decreases results.len(),
{
    if results.len() == 0 {
        Seq::empty()
    } else {
        let head = selected_results(data, results.drop_last(), selected);
        let r = results.last();
        if selected.contains(r.full_path) && r.full_path.contains('/') {
            head.push(result_job(data, r))
        } else {
            head
        }
    }
}

/// A result as it is queued.
pub fn result_to_queue(index: &LocalIndex, r: &SearchResult) -> (job: ResultToQueue)
    requires
        index.wf(),
    ensures
        job@ == result_job(index@, r@),
{
    ResultToQueue {
        url: result_url(index, r.raw_folder.as_str(), r.full_path.as_str()),
        name: r.name.clone(),
        size_bytes: r.size_bytes,
        folder: r.folder.clone(),
    }
}

impl SearchTab {
    /// The selected results as they are queued; the selection is forgotten.
    pub fn queue_selected(&mut self, index: &LocalIndex) -> (list: Vec<ResultToQueue>)
        requires
            old(self).wf(),
            index.wf(),
        ensures
            final(self).wf(),
            result_jobs(list@) == selected_results(
                index@,
                old(self)@.results,
                old(self)@.selected,
            ),
            final(self)@ == (SearchState { selected: Set::empty(), ..old(self)@ }),
    {
        let ghost view = self@.results;
        let mut list: Vec<ResultToQueue> = Vec::new();
        let mut i: usize = 0;
        assert(result_jobs(list@) =~= Seq::<ResultJob>::empty());
        while i < self.results.len()
            invariant
                *self == *old(self),
                self.wf(),
                index.wf(),
                view == results_view(self.results@),
                i <= self.results@.len(),
                result_jobs(list@) == selected_results(index@, view.take(i as int), self@.selected),
            decreases self.results@.len() - i,
        {
            let r = &self.results[i];
            let ghost before = result_jobs(list@);
            proof {
                assert(view.take(i + 1).drop_last() =~= view.take(i as int));
                assert(view.take(i + 1).last() == r@);
            }
            if self.selected.contains(r.full_path.as_str()) && has_char(r.full_path.as_str(), '/') {
                let job = result_to_queue(index, r);
                let ghost j = job@;
                list.push(job);
                assert(result_jobs(list@) =~= before.push(j));
            }
            i = i + 1;
        }
        assert(view.take(self.results@.len() as int) =~= view);
        self.selected.clear();
        assert(self@ =~= (SearchState { selected: Set::empty(), ..old(self)@ }));
        list
    }
}

// ── The filters' menus ───────────────────────────────────────────────────────
/// The names of the collections, as the menus show them.
pub fn menu_folders(index: &LocalIndex) -> (names: Vec<String>)
    requires
        index.wf(),
    ensures
        exists|folders: Seq<Seq<char>>|
            #![trigger folders.len()]
            {
                &&& names@.len() == folders.len()
                &&& forall|i: int|
                    0 <= i < folders.len() ==> (#[trigger] texts(names@)[i]) == decoded(folders[i])
                &&& forall|i: int, j: int|
                    0 <= i < j < folders.len() ==> text_before(
                        #[trigger] folders[i],
                        #[trigger] folders[j],
                    )
                &&& forall|k: Seq<char>| #[trigger]
                    folders.contains(k) <==> index_map(index@).contains_key(k) && is_top_level(k)
            },
{
    let folders = top_level_folders(index);
    let mut names: Vec<String> = Vec::new();
    let mut i: usize = 0;
    while i < folders.len()
        invariant
            i <= folders@.len(),
            names@.len() == i,
            forall|k: int|
                0 <= k < i ==> (#[trigger] texts(names@)[k]) == decoded(texts(folders@)[k]),
        decreases folders@.len() - i,
    {
        let ghost before = texts(names@);
        let name = url_decode(folders[i].as_str());
        let ghost n = name@;
        names.push(name);
        proof {
            assert(texts(folders@)[i as int] == folders@[i as int]@);
            assert forall|k: int| 0 <= k < i + 1 implies (#[trigger] texts(names@)[k]) == decoded(
                texts(folders@)[k],
            ) by {
                if k < i {
                    assert(before[k] == texts(names@)[k]);
                }
            }
        }
        i = i + 1;
    }
    assert(texts(folders@).len() == folders@.len());
    names
}

/// The results are searched for again only where query or filters changed.
pub proof fn law_results_kept(state: SearchState, files: Seq<IndexedFile>, other: Seq<IndexedFile>)
    ensures
        state.updated(files).updated(other) == state.updated(files),
{
}

/// When the folder of an opened result comes, the file of that name is selected, and the list is
/// scrolled to a file of that name rather than to where the folder was left.
pub proof fn law_opened_result_selected(
    state: BrowserState,
    raw_folder: Seq<char>,
    name: Seq<char>,
    entries: Seq<ListRow>,
    bytes: nat,
    i: int,
)
    requires
        state.search_highlight == Some(name),
        state.current_path == path_of(segments(raw_folder)),
        0 <= i < entries.len(),
        !entries[i].is_folder,
        lowercase(entries[i].name) == lowercase(name),
        entries[i].url is Some,
    ensures
        ({
            let after = state.after_lines(path_of(segments(raw_folder)), entries, bytes);
            &&& after.selected.contains(entries[i].url->0)
            &&& after.scroll_to_highlight == 2
            &&& after.highlight_url is Some
            &&& !after.restore_scroll
        }),
{
    lemma_named_found(entries, name, i);
    let urls = urls_named(entries, name);
    assert(urls.to_set().contains(entries[i].url->0));
}

proof fn lemma_named_found(entries: Seq<ListRow>, name: Seq<char>, i: int)
    requires
        0 <= i < entries.len(),
        !entries[i].is_folder,
        lowercase(entries[i].name) == lowercase(name),
        entries[i].url is Some,
    ensures
        urls_named(entries, name).len() > 0,
        urls_named(entries, name).contains(entries[i].url->0),
    decreases entries.len(),
{
    let head = urls_named(entries.drop_last(), name);
    let all = urls_named(entries, name);
    if i < entries.len() - 1 {
        lemma_named_found(entries.drop_last(), name, i);
        let j = choose|j: int| 0 <= j < head.len() && head[j] == entries[i].url->0;
        assert(all[j] == head[j]);
    } else {
        assert(all[head.len() as int] == entries[i].url->0);
    }
}

/// What stands on the tab: the query beside its name.
pub fn tab_label(query: &str) -> (text: String)
    ensures
        text@ == if query@.len() == 0 {
            "SEARCH"@
        } else {
            "SEARCH  ·  "@ + clipped(query@, 20)
        },
{
    if query.unicode_len() == 0 {
        "SEARCH".to_owned()
    } else {
        concat("SEARCH  ·  ", clip(query, 20).as_str())
    }
}

/// A changed query or filter is searched for, in lower case, with both filters; what was typed stays
/// as it is, and so does the selection.
pub proof fn law_update_searches(state: SearchState, files: Seq<IndexedFile>)
    ensures
        ({
            let after = state.updated(files);
            &&& after.query == state.query && after.only == state.only && after.exclude
                == state.exclude && after.selected == state.selected
            &&& lowercase(state.query) != state.last_query || lowercase(state.only)
                != state.last_only || lowercase(state.exclude) != state.last_exclude
                ==> after.results == shown_results(
                files,
                lowercase(state.query),
                lowercase(state.only),
                lowercase(state.exclude),
            )
            &&& after.last_query == lowercase(state.query) && after.last_only == lowercase(
                state.only,
            ) && after.last_exclude == lowercase(state.exclude)
            &&& lowercase(state.query) == state.last_query && lowercase(state.only)
                == state.last_only && lowercase(state.exclude) == state.last_exclude
                ==> after.results == state.results
        }),
{
}

/// Selecting a result selects it, or deselects it where it was selected, and changes nothing else.
pub proof fn law_result_toggled(state: SearchState, path: Seq<char>, other: Seq<char>)
    ensures
        state.toggled(path).selected.contains(path) <==> !state.selected.contains(path),
        other != path ==> (state.toggled(path).selected.contains(other) <==> state.selected.contains(
            other,
        )),
        state.toggled(path) == (SearchState { selected: state.toggled(path).selected, ..state }),
        state.toggled(path).toggled(path) == state,
{
    assert(state.toggled(path).toggled(path).selected =~= state.selected);
}

/// Clearing the search empties the query, its results and their selection; the filters stay.
pub proof fn law_search_cleared(state: SearchState)
    ensures
        state.cleared().query.len() == 0,
        state.cleared().results.len() == 0,
        state.cleared().selected == Set::<Seq<char>>::empty(),
        state.cleared().only == state.only,
        state.cleared().exclude == state.exclude,
{
}

/// The button that queues queues, and only it; the button that opens and a click open the result's
/// folder; a click with a modifier key selects.
pub proof fn law_result_action(
    clicked: bool,
    open_button: bool,
    queue_button: bool,
    modifier: bool,
)
    ensures
        ({
            let action = result_action(clicked, open_button, queue_button, modifier);
            &&& action is Queue <==> queue_button && !open_button
            &&& action is Select <==> clicked && modifier && !open_button && !queue_button
            &&& action is Open <==> open_button || (clicked && !modifier && !queue_button)
            &&& action is Nothing <==> !clicked && !open_button && !queue_button
        }),
{
}

/// The way to a folder: one step for each of its names, each with the path up to there, labelled
/// with the decoded name.
pub proof fn law_steps_to(raw: Seq<Seq<char>>, name: Seq<char>, labels: Seq<Seq<char>>)
    ensures
        path_of(Seq::empty()) == Seq::<char>::empty(),
        path_of(raw.push(name)) == path_of(raw) + name + "/"@,
        steps_to(Seq::empty(), labels) == Seq::<(Seq<char>, Seq<char>)>::empty(),
        steps_to(raw.push(name), labels) == steps_to(raw, labels).push(
            (
                if raw.len() < labels.len() {
                    labels[raw.len() as int]
                } else {
                    name
                },
                path_of(raw) + name + "/"@,
            ),
        ),
{
    assert(raw.push(name).drop_last() =~= raw);
}

/// The selected results go to the queue in the order in which they are shown, each with its address,
/// name, size and folder.
pub proof fn law_selected_queued(
    data: Seq<u8>,
    results: Seq<ResultRow>,
    r: ResultRow,
    selected: Set<Seq<char>>,
)
    ensures
        selected_results(data, Seq::empty(), selected) == Seq::<ResultJob>::empty(),
        selected.contains(r.full_path) && r.full_path.contains('/') ==> selected_results(
            data,
            results.push(r),
            selected,
        ) == selected_results(data, results, selected).push(
            ResultJob {
                url: result_address(data, r.raw_folder, r.full_path),
                name: r.name,
                size_bytes: r.size_bytes,
                folder: r.folder,
            },
        ),
        !selected.contains(r.full_path) || !r.full_path.contains('/') ==> selected_results(
            data,
            results.push(r),
            selected,
        ) == selected_results(data, results, selected),
{
    assert(results.push(r).drop_last() =~= results);
}

} // verus!
