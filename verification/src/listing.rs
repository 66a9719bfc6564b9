//! Directory listings: from the server's page or from the index to the lines that are shown.

use crate::block::{rows, DirEntry, DirRow};
use crate::generated_dirs::{lookup, looked_up, LocalIndex};
use crate::outside::{
    html_rows, html_table, table_view, url_join, url_joined, CellView, HtmlCell, MAX_PAGE,
};
use crate::sort::{
    bytes_before, keys_view, law_keys_order, positions, sort_by_key, stable_order, SortKey,
};
use crate::text::{
    chars_of, lowercase, same_text, to_lower, trim, trim_end_of, trim_end_slashes, trim_slashes,
    trim_slashes_of, trimmed,
};
use vstd::prelude::*;
use vstd::utf8::encode_utf8;

verus! {

// ── The server's page ────────────────────────────────────────────────────────
/// A line of the server's page, as it stands there.
pub struct RawEntry {
    pub name: String,
    pub href: String,
    pub size: String,
    pub date: String,
    pub is_folder: bool,
}

/// What a line of the server's page says.
#[verifier::ext_equal]
pub struct RawRow {
    pub name: Seq<char>,
    pub href: Seq<char>,
    pub size: Seq<char>,
    pub date: Seq<char>,
    pub is_folder: bool,
}

impl View for RawEntry {
    type V = RawRow;

    open spec fn view(&self) -> RawRow {
        RawRow {
            name: self.name@,
            href: self.href@,
            size: self.size@,
            date: self.date@,
            is_folder: self.is_folder,
        }
    }
}

pub open spec fn raws(list: Seq<RawEntry>) -> Seq<RawRow> {
    list.map_values(|e: RawEntry| e@)
}

/// A link to a folder ends in a slash.
pub open spec fn folder_link(href: Seq<char>) -> bool {
    href.len() > 0 && href.last() == '/'
}

/// The line that a table row holds; `None` where the row holds none: it has fewer than three
/// cells, its first cell has no link, or the first link of that cell leads to the folder itself or
/// to its parent.
pub open spec fn row_entry(cells: Seq<CellView>) -> Option<RawRow> {
    if cells.len() < 3 || cells[0].links.len() == 0 {
        None
    } else {
        let link = cells[0].links[0];
        let href = match link.href {
            Some(h) => h,
            None => Seq::empty(),
        };
        if href == "./"@ || href == "../"@ || href.len() == 0 {
            None
        } else {
            Some(
                RawRow {
                    name: trim_end_of(trimmed(link.text), '/'),
                    href,
                    size: trimmed(cells[1].text),
                    date: trimmed(cells[2].text),
                    is_folder: folder_link(href),
                },
            )
        }
    }
}

/// The lines that table rows hold, in their order.
pub open spec fn row_entries(table: Seq<Seq<CellView>>) -> Seq<RawRow>
    decreases table.len(),
{
    if table.len() == 0 {
        Seq::empty()
    } else {
        let head = row_entries(table.drop_last());
        match row_entry(table.last()) {
            Some(e) => head.push(e),
            None => head,
        }
    }
}

/// The lines of a page's table: the first row is its heading.
pub open spec fn table_entries(table: Seq<Seq<CellView>>) -> Seq<RawRow> {
    if table.len() == 0 {
        Seq::empty()
    } else {
        row_entries(table.skip(1))
    }
}

/// Whether a link leads to a folder.
pub fn is_folder_link(href: &str) -> (yes: bool)
    ensures
        yes == folder_link(href@),
{
    let chars = chars_of(href);
    let n: usize = chars.len();
    n > 0 && chars[n - 1] == '/'
}

fn read_row(cells: &Vec<HtmlCell>) -> (entry: Option<RawEntry>)
    ensures
        match entry {
            Some(e) => row_entry(cells@.map_values(|cell: HtmlCell| cell@)) == Some(e@),
            None => row_entry(cells@.map_values(|cell: HtmlCell| cell@)) is None,
        },
{
    let ghost view = cells@.map_values(|cell: HtmlCell| cell@);
    if cells.len() < 3 {
        return None;
    }
    assert(view[0] == cells@[0]@ && view[1] == cells@[1]@ && view[2] == cells@[2]@);
    if cells[0].links.len() == 0 {
        return None;
    }
    let link = &cells[0].links[0];
    assert(view[0].links[0] == link@);
    let href: String = match &link.href {
        Some(h) => h.clone(),
        None => String::new(),
    };
    if same_text(href.as_str(), "./") || same_text(href.as_str(), "../")
        || href.as_str().unicode_len() == 0 {
        return None;
    }
    let label = trim(link.text.as_str());
    let entry = RawEntry {
        name: trim_end_slashes(label.as_str()),
        size: trim(cells[1].text.as_str()),
        date: trim(cells[2].text.as_str()),
        is_folder: is_folder_link(href.as_str()),
        href,
    };
    assert(row_entry(view) matches Some(e) && e =~= entry@);
    Some(entry)
}

/// The lines of a page's table.
pub fn read_table(table: &Vec<Vec<HtmlCell>>) -> (entries: Vec<RawEntry>)
    ensures
        raws(entries@) == table_entries(table_view(table@)),
{
    let ghost view = table_view(table@);
    let mut entries: Vec<RawEntry> = Vec::new();
    assert(raws(entries@) =~= Seq::<RawRow>::empty());
    if table.len() == 0 {
        return entries;
    }
    let ghost body = view.skip(1);
    let mut i: usize = 1;
    assert(body.take(0) =~= Seq::<Seq<CellView>>::empty());
    while i < table.len()
        invariant
            view == table_view(table@),
            body == view.skip(1),
            1 <= i <= table@.len(),
            raws(entries@) == row_entries(body.take(i - 1)),
        decreases table@.len() - i,
    {
        let ghost before = raws(entries@);
        proof {
            assert(body.take(i as int).drop_last() =~= body.take(i - 1));
            assert(body.take(i as int).last() == view[i as int]);
            assert(view[i as int] == table@[i as int]@.map_values(|cell: HtmlCell| cell@));
        }
        match read_row(&table[i]) {
            Some(e) => {
                let ghost r = e@;
                entries.push(e);
                assert(raws(entries@) =~= before.push(r));
            },
            None => {},
        }
        i = i + 1;
    }
    assert(body.take(table@.len() - 1) =~= body);
    entries
}

/// The table rows of a page.
pub open spec fn page_table(body: Seq<char>) -> Seq<Seq<CellView>> {
    html_rows(body, "table tr"@, "td"@, "a"@, "href"@)
}

/// The lines of a server's page.
pub fn read_page(body: &str) -> (entries: Vec<RawEntry>)
    requires
        encode_utf8(body@).len() <= MAX_PAGE,
    ensures
        raws(entries@) == table_entries(page_table(body@)),
{
    match html_table(body, "table tr", "td", "a", "href") {
        Some(table) => read_table(&table),
        None => {
            assert(false);
            Vec::new()
        },
    }
}

// ── Lines as they are shown ──────────────────────────────────────────────────
/// A line of a listing, with the URL of its file.
pub struct ListEntry {
    pub name: String,
    pub href: String,
    pub size: String,
    pub date: String,
    pub is_folder: bool,
    pub url: Option<String>,
}

/// What a line of a listing says.
#[verifier::ext_equal]
pub struct ListRow {
    pub name: Seq<char>,
    pub href: Seq<char>,
    pub size: Seq<char>,
    pub date: Seq<char>,
    pub is_folder: bool,
    pub url: Option<Seq<char>>,
}

pub open spec fn opt_text(text: Option<String>) -> Option<Seq<char>> {
    match text {
        Some(t) => Some(t@),
        None => None,
    }
}

impl View for ListEntry {
    type V = ListRow;

    open spec fn view(&self) -> ListRow {
        ListRow {
            name: self.name@,
            href: self.href@,
            size: self.size@,
            date: self.date@,
            is_folder: self.is_folder,
            url: opt_text(self.url),
        }
    }
}

impl Clone for ListEntry {
    fn clone(&self) -> (copy: Self)
        ensures
            copy@ == self@,
    {
        ListEntry {
            name: self.name.clone(),
            href: self.href.clone(),
            size: self.size.clone(),
            date: self.date.clone(),
            is_folder: self.is_folder,
            url: match &self.url {
                Some(u) => Some(u.clone()),
                None => None,
            },
        }
    }
}

pub open spec fn listed(list: Seq<ListEntry>) -> Seq<ListRow> {
    list.map_values(|e: ListEntry| e@)
}

/// The address of a file of the folder at `url`; a folder has none.
pub open spec fn file_url(url: Seq<char>, href: Seq<char>, is_folder: bool) -> Option<Seq<char>> {
    if is_folder {
        None
    } else {
        url_joined(url, href)
    }
}

/// A size as it is shown: a dash stands for none.
pub open spec fn shown_size(size: Seq<char>) -> Seq<char> {
    if size == "-"@ {
        Seq::empty()
    } else {
        size
    }
}

/// A line of the server's page as it is shown for the folder at `url`.
pub open spec fn live_row(url: Seq<char>, e: RawRow) -> ListRow {
    ListRow {
        name: e.name,
        href: e.href,
        size: shown_size(e.size),
        date: e.date,
        is_folder: e.is_folder,
        url: file_url(url, e.href, e.is_folder),
    }
}

/// A line of the index as it is shown for the folder at `url`.
pub open spec fn baked_row(url: Seq<char>, e: DirRow) -> ListRow {
    ListRow {
        name: e.name,
        href: e.href,
        size: shown_size(e.size),
        date: e.date,
        is_folder: e.is_folder,
        url: file_url(url, e.href, e.is_folder),
    }
}

fn show_size(size: String) -> (shown: String)
    ensures
        shown@ == shown_size(size@),
{
    if same_text(size.as_str(), "-") {
        String::new()
    } else {
        size
    }
}

fn find_url(url: &str, href: &str, is_folder: bool) -> (address: Option<String>)
    ensures
        opt_text(address) == file_url(url@, href@, is_folder),
{
    if is_folder {
        None
    } else {
        url_join(url, href)
    }
}

/// What a listing is sorted by: folders first, then by name whatever its case.
pub open spec fn listing_keys(list: Seq<ListRow>) -> Seq<(int, Seq<char>)> {
    list.map_values(
        |e: ListRow|
            (
                if e.is_folder {
                    0int
                } else {
                    1int
                },
                lowercase(e.name),
            ),
    )
}

/// `out` is the list in the given order.
pub open spec fn in_order(list: Seq<ListRow>, order: Seq<int>, out: Seq<ListRow>) -> bool {
    &&& out.len() == order.len()
    &&& forall|i: int| 0 <= i < order.len() ==> #[trigger] out[i] == list[order[i]]
}

/// `out` is the list, sorted: folders first, then by name whatever its case; of two lines that
/// are alike in both, the earlier one stays first.
pub open spec fn sorted_listing(list: Seq<ListRow>, out: Seq<ListRow>) -> bool {
    exists|order: Seq<int>| #[trigger]
        stable_order(listing_keys(list), order) && in_order(list, order, out)
}

/// Sorts a listing.
pub fn sort_listing(list: &Vec<ListEntry>) -> (out: Vec<ListEntry>)
    ensures
        sorted_listing(listed(list@), listed(out@)),
{
    let ghost view = listed(list@);
    let ghost wanted = listing_keys(view);
    let mut keys: Vec<SortKey> = Vec::new();
    let mut i: usize = 0;
    while i < list.len()
        invariant
            view == listed(list@),
            wanted == listing_keys(view),
            i <= list@.len(),
            keys_view(keys@) == wanted.take(i as int),
        decreases list@.len() - i,
    {
        let e = &list[i];
        let key = SortKey {
            rank: if e.is_folder {
                0
            } else {
                1
            },
            text: to_lower(e.name.as_str()),
        };
        let ghost before = keys_view(keys@);
        let ghost k = key@;
        keys.push(key);
        proof {
            assert(view[i as int] == e@);
            assert(keys_view(keys@) =~= before.push(k));
            assert(wanted.take(i + 1) =~= wanted.take(i as int).push(wanted[i as int]));
        }
        i = i + 1;
    }
    assert(wanted.take(list@.len() as int) =~= wanted);
    let order = sort_by_key(&keys);
    let ghost o = positions(order@);
    let mut out: Vec<ListEntry> = Vec::new();
    let mut j: usize = 0;
    while j < order.len()
        invariant
            view == listed(list@),
            wanted == listing_keys(view),
            o == positions(order@),
            stable_order(wanted, o),
            j <= order@.len(),
            out@.len() == j,
            forall|a: int| 0 <= a < j ==> #[trigger] listed(out@)[a] == view[o[a]],
        decreases order@.len() - j,
    {
        assert(0 <= o[j as int] < wanted.len());
        let ghost before = listed(out@);
        let e = list[order[j]].clone();
        let ghost r = e@;
        out.push(e);
        proof {
            assert(view[o[j as int]] == r);
            assert forall|a: int| 0 <= a < j + 1 implies #[trigger] listed(out@)[a] == view[o[a]] by {
                if a < j {
                    assert(before[a] == listed(out@)[a]);
                }
            }
        }
        j = j + 1;
    }
    assert(in_order(view, o, listed(out@)));
    out
}

/// The listing of the folder at `url` that the server's page gives: its lines, sorted.
pub fn live_listing(url: &str, raw: Vec<RawEntry>) -> (entries: Vec<ListEntry>)
    ensures
        sorted_listing(raws(raw@).map_values(|e: RawRow| live_row(url@, e)), listed(entries@)),
{
    let ghost view = raws(raw@);
    let mut list: Vec<ListEntry> = Vec::new();
    let mut i: usize = 0;
    while i < raw.len()
        invariant
            view == raws(raw@),
            i <= raw@.len(),
            list@.len() == i,
            forall|a: int| 0 <= a < i ==> #[trigger] listed(list@)[a] == live_row(url@, view[a]),
        decreases raw@.len() - i,
    {
        let e = &raw[i];
        let entry = ListEntry {
            name: e.name.clone(),
            href: e.href.clone(),
            size: show_size(e.size.clone()),
            date: e.date.clone(),
            is_folder: e.is_folder,
            url: find_url(url, e.href.as_str(), e.is_folder),
        };
        let ghost before = listed(list@);
        let ghost r = entry@;
        list.push(entry);
        proof {
            assert(r =~= live_row(url@, view[i as int]));
            assert forall|a: int| 0 <= a < i + 1 implies #[trigger] listed(list@)[a] == live_row(
                url@,
                view[a],
            ) by {
                if a < i {
                    assert(before[a] == listed(list@)[a]);
                }
            }
        }
        i = i + 1;
    }
    assert(listed(list@) =~= view.map_values(|e: RawRow| live_row(url@, e)));
    sort_listing(&list)
}

/// The listing of the folder at `url` that the index gives, in the index's order.
pub fn baked_listing(url: &str, baked: Vec<DirEntry>) -> (entries: Vec<ListEntry>)
    ensures
        listed(entries@) == rows(baked@).map_values(|e: DirRow| baked_row(url@, e)),
{
    let ghost view = rows(baked@);
    let mut list: Vec<ListEntry> = Vec::new();
    let mut i: usize = 0;
    while i < baked.len()
        invariant
            view == rows(baked@),
            i <= baked@.len(),
            list@.len() == i,
            forall|a: int| 0 <= a < i ==> #[trigger] listed(list@)[a] == baked_row(url@, view[a]),
        decreases baked@.len() - i,
    {
        let e = &baked[i];
        let entry = ListEntry {
            name: e.name.clone(),
            href: e.href.clone(),
            size: show_size(e.size.clone()),
            date: e.date.clone(),
            is_folder: e.is_folder,
            url: find_url(url, e.href.as_str(), e.is_folder),
        };
        let ghost before = listed(list@);
        let ghost r = entry@;
        list.push(entry);
        proof {
            assert(r =~= baked_row(url@, view[i as int]));
            assert forall|a: int| 0 <= a < i + 1 implies #[trigger] listed(list@)[a] == baked_row(
                url@,
                view[a],
            ) by {
                if a < i {
                    assert(before[a] == listed(list@)[a]);
                }
            }
        }
        i = i + 1;
    }
    assert(listed(list@) =~= view.map_values(|e: DirRow| baked_row(url@, e)));
    list
}

// ── From the index or from the server ────────────────────────────────────────
/// A path as a key of the index: without slashes at its ends.
pub fn path_to_dir_key(path: &str) -> (key: String)
    ensures
        key@ == trim_slashes_of(path@),
{
    trim_slashes(path)
}

/// What the index gives of a folder; `None` where the server is to be asked: on demand, where the
/// index does not know the folder, and where it knows it as empty.
pub open spec fn from_index(data: Seq<u8>, url: Seq<char>, rel_path: Seq<char>, force: bool) -> Option<
    Seq<ListRow>,
> {
    match looked_up(data, trim_slashes_of(rel_path)) {
        Some(listing) => if force || listing.len() == 0 {
            None
        } else {
            Some(listing.map_values(|e: DirRow| baked_row(url, e)))
        },
        None => None,
    }
}

/// What the index gives of a folder; `None` where the server is to be asked.
pub fn fetch_directory(index: &LocalIndex, url: &str, rel_path: &str, force: bool) -> (entries:
    Option<Vec<ListEntry>>)
    requires
        index.wf(),
    ensures
        match entries {
            Some(list) => from_index(index@, url@, rel_path@, force) == Some(listed(list@)),
            None => from_index(index@, url@, rel_path@, force) is None,
        },
{
    if force {
        return None;
    }
    let key = path_to_dir_key(rel_path);
    match lookup(index, key.as_str()) {
        Some(baked) => if baked.len() == 0 {
            None
        } else {
            Some(baked_listing(url, baked))
        },
        None => None,
    }
}

/// What the server's page gives of the folder at `url`.
pub fn fetch_directory_http(url: &str, body: &str) -> (entries: Vec<ListEntry>)
    requires
        encode_utf8(body@).len() <= MAX_PAGE,
    ensures
        sorted_listing(
            table_entries(page_table(body@)).map_values(|e: RawRow| live_row(url@, e)),
            listed(entries@),
        ),
{
    live_listing(url, read_page(body))
}

/// A line as it is put into the index, with its size in bytes.
pub open spec fn kept_row(e: ListRow, size_bytes: u64) -> DirRow {
    DirRow {
        name: e.name,
        href: e.href,
        size: e.size,
        size_bytes,
        date: e.date,
        is_folder: e.is_folder,
    }
}

/// A listing as it is put into the index. `sizes` are the lines' sizes in bytes.
pub fn entries_to_keep(entries: &Vec<ListEntry>, sizes: &Vec<u64>) -> (kept: Vec<DirEntry>)
    requires
        sizes@.len() == entries@.len(),
    ensures
        kept@.len() == entries@.len(),
        forall|i: int|
            0 <= i < kept@.len() ==> #[trigger] rows(kept@)[i] == kept_row(
                listed(entries@)[i],
                sizes@[i],
            ),
{
    let mut kept: Vec<DirEntry> = Vec::new();
    let mut i: usize = 0;
    while i < entries.len()
        invariant
            sizes@.len() == entries@.len(),
            i <= entries@.len(),
            kept@.len() == i,
            forall|a: int|
                0 <= a < i ==> #[trigger] rows(kept@)[a] == kept_row(
                    listed(entries@)[a],
                    sizes@[a],
                ),
        decreases entries@.len() - i,
    {
        let e = &entries[i];
        let entry = DirEntry {
            name: e.name.clone(),
            href: e.href.clone(),
            size: e.size.clone(),
            size_bytes: sizes[i],
            date: e.date.clone(),
            is_folder: e.is_folder,
        };
        let ghost before = rows(kept@);
        let ghost r = entry@;
        kept.push(entry);
        proof {
            assert(r =~= kept_row(listed(entries@)[i as int], sizes@[i as int]));
            assert forall|a: int| 0 <= a < i + 1 implies #[trigger] rows(kept@)[a] == kept_row(
                listed(entries@)[a],
                sizes@[a],
            ) by {
                if a < i {
                    assert(before[a] == rows(kept@)[a]);
                }
            }
        }
        i = i + 1;
    }
    kept
}

/// What a table row of the page shows, cell by cell: the first cell's first link gives the name and
/// the link, the second cell the size, the third the date. A row with too few cells, without a link,
/// or whose link leads nowhere, to the folder itself or to its parent shows nothing.
pub proof fn law_row_of_cells(cells: Seq<CellView>, url: Seq<char>)
    ensures
        cells.len() < 3 ==> row_entry(cells) is None,
        cells.len() >= 3 && cells[0].links.len() == 0 ==> row_entry(cells) is None,
        cells.len() >= 3 && cells[0].links.len() > 0 ==> ({
            let link = cells[0].links[0];
            match link.href {
                Some(href) => if href.len() == 0 || href == "./"@ || href == "../"@ {
                    row_entry(cells) is None
                } else {
                    &&& row_entry(cells) is Some
                    &&& ({
                        let raw = row_entry(cells)->0;
                        let line = live_row(url, raw);
                        &&& raw.href == href && line.href == href
                        &&& raw.name == trim_end_of(trimmed(link.text), '/') && line.name
                            == raw.name
                        &&& raw.date == trimmed(cells[2].text) && line.date == raw.date
                        &&& raw.size == trimmed(cells[1].text)
                        &&& trimmed(cells[1].text) == "-"@ ==> line.size.len() == 0
                        &&& trimmed(cells[1].text) != "-"@ ==> line.size == trimmed(cells[1].text)
                        &&& raw.is_folder <==> href.last() == '/'
                        &&& line.is_folder <==> href.last() == '/'
                        &&& line.is_folder ==> line.url is None
                        &&& !line.is_folder ==> line.url == url_joined(url, href)
                    })
                },
                None => row_entry(cells) is None,
            }
        }),
{
}

/// The heading of a page's table is no line, and of the rows after it each shows its own line or
/// none, in their order.
pub proof fn law_rows_of_table(heading: Seq<CellView>, table: Seq<Seq<CellView>>, row: Seq<CellView>)
    ensures
        table_entries(Seq::empty()) == Seq::<RawRow>::empty(),
        table_entries(seq![heading]) == Seq::<RawRow>::empty(),
        table.len() > 0 ==> table_entries(table.push(row)) == (match row_entry(row) {
            Some(e) => table_entries(table).push(e),
            None => table_entries(table),
        }),
{
    assert(seq![heading].skip(1) =~= Seq::<Seq<CellView>>::empty());
    if table.len() > 0 {
        assert(table.push(row).skip(1) =~= table.skip(1).push(row));
        assert(table.skip(1).push(row).drop_last() =~= table.skip(1));
    }
}

/// A line of the index shows what the index has of it, and its file's address is that of its link in
/// the folder.
pub proof fn law_line_of_index(url: Seq<char>, e: DirRow)
    ensures
        ({
            let line = baked_row(url, e);
            &&& line.name == e.name
            &&& line.href == e.href
            &&& line.date == e.date
            &&& line.is_folder == e.is_folder
            &&& e.size == "-"@ ==> line.size.len() == 0
            &&& e.size != "-"@ ==> line.size == e.size
            &&& e.is_folder ==> line.url is None
            &&& !e.is_folder ==> line.url == url_joined(url, e.href)
        }),
{
}

/// A listing is sorted: it has the lines that came, folders before files, and each kind by its names
/// in lower case.
pub proof fn law_listing_sorted(list: Seq<ListRow>, out: Seq<ListRow>)
    requires
        sorted_listing(list, out),
    ensures
        out.len() == list.len(),
        forall|e: ListRow| #[trigger] out.contains(e) <==> list.contains(e),
        forall|i: int, j: int|
            0 <= i < j < out.len() && (#[trigger] out[j]).is_folder ==> (
            #[trigger] out[i]).is_folder,
        forall|i: int, j: int|
            0 <= i < j < out.len() && (#[trigger] out[i]).is_folder == (
            #[trigger] out[j]).is_folder ==> !bytes_before(
                encode_utf8(lowercase(out[j].name)),
                encode_utf8(lowercase(out[i].name)),
            ),
{
    let keys = listing_keys(list);
    let o = choose|order: Seq<int>| #[trigger] stable_order(keys, order) && in_order(list, order, out);
    assert forall|e: ListRow| #[trigger] out.contains(e) <==> list.contains(e) by {
        if out.contains(e) {
            let i = choose|i: int| 0 <= i < out.len() && out[i] == e;
            assert(0 <= o[i] < list.len());
            assert(list[o[i]] == e);
        }
        if list.contains(e) {
            let p = choose|p: int| 0 <= p < list.len() && list[p] == e;
            assert(o.contains(p));
            let i = choose|i: int| 0 <= i < o.len() && o[i] == p;
            assert(out[i] == e);
        }
    }
    assert forall|i: int, j: int| 0 <= i < j < out.len() && (#[trigger] out[j]).is_folder implies (
    #[trigger] out[i]).is_folder by {
        law_keys_order(keys, o, i, j);
    }
    assert forall|i: int, j: int|
        0 <= i < j < out.len() && (#[trigger] out[i]).is_folder == (
        #[trigger] out[j]).is_folder implies !bytes_before(
        encode_utf8(lowercase(out[j].name)),
        encode_utf8(lowercase(out[i].name)),
    ) by {
        law_keys_order(keys, o, i, j);
    }
}

/// The index answers for a folder that it knows with something in it, unless the server is to be
/// asked in any case; slashes around the path do not matter.
pub proof fn law_index_answers(data: Seq<u8>, url: Seq<char>, rel_path: Seq<char>, i: int)
    ensures
        from_index(data, url, rel_path, true) is None,
        match looked_up(data, trim_slashes_of(rel_path)) {
            Some(listing) => {
                &&& listing.len() == 0 ==> from_index(data, url, rel_path, false) is None
                &&& listing.len() > 0 ==> from_index(data, url, rel_path, false) is Some
                    && from_index(data, url, rel_path, false)->0.len() == listing.len()
                &&& 0 <= i < listing.len() ==> from_index(data, url, rel_path, false)->0[i]
                    == baked_row(url, listing[i])
            },
            None => from_index(data, url, rel_path, false) is None,
        },
{
}

/// A line is kept in the index as it is shown, with its size in bytes.
pub proof fn law_line_kept(e: ListRow, size_bytes: u64)
    ensures
        ({
            let kept = kept_row(e, size_bytes);
            &&& kept.name == e.name
            &&& kept.href == e.href
            &&& kept.size == e.size
            &&& kept.date == e.date
            &&& kept.is_folder == e.is_folder
            &&& kept.size_bytes == size_bytes
        }),
{
}

/// What is said of a line is what stands in it, of the server's page and of a listing, line by line.
pub proof fn law_line_fields(raw: RawEntry, line: ListEntry, list: Seq<ListEntry>, i: int)
    ensures
        raw@.name == raw.name@ && raw@.href == raw.href@ && raw@.size == raw.size@ && raw@.date
            == raw.date@ && raw@.is_folder == raw.is_folder,
        line@.name == line.name@ && line@.href == line.href@ && line@.size == line.size@
            && line@.date == line.date@ && line@.is_folder == line.is_folder,
        line.url is None <==> line@.url is None,
        line.url is Some ==> line@.url == Some(line.url->0@),
        listed(list).len() == list.len(),
        0 <= i < list.len() ==> listed(list)[i] == list[i]@,
{
}

/// A page's table is made of the cells of its rows, and of the links in them with what they lead to.
pub proof fn law_page_table(body: Seq<char>)
    ensures
        page_table(body) == html_rows(body, "table tr"@, "td"@, "a"@, "href"@),
{
}

} // verus!
