//! Search over the names of all files that the index knows.

use crate::block::{rows, DirEntry, DirRow};
use crate::generated_dirs::{folder_count, listing_at, lookup, looked_up, LocalIndex};
use crate::format::{count_of, counted};
use crate::index::{index_order, IndexRecord};
use crate::outside::{url_join, url_joined};
use crate::text::{
    ascii_lower, ascii_upper, concat, concat3, contains_text, decimal, join, joined,
    last_index_of, law_last_index, law_split, lowercase, occurs_in, same_text, split_char,
    split_last, split_on, texts, to_lower, trim_end_of,
};
use crate::url_text::{decoded, decoded_name, url_decode, url_decode_name, BASE_URL};
use vstd::prelude::*;
use vstd::utf8::is_ascii_chars;

verus! {

/// A file in the search index: its link in lower case, its folder and its size.
pub struct SearchRow {
    pub href_lc: String,
    pub folder: String,
    pub size_bytes: u64,
}

/// What a row of the search index says.
#[verifier::ext_equal]
pub struct IndexedFile {
    pub href_lc: Seq<char>,
    pub folder: Seq<char>,
    pub size_bytes: u64,
}

impl View for SearchRow {
    type V = IndexedFile;

    open spec fn view(&self) -> IndexedFile {
        IndexedFile { href_lc: self.href_lc@, folder: self.folder@, size_bytes: self.size_bytes }
    }
}

pub open spec fn indexed(list: Seq<SearchRow>) -> Seq<IndexedFile> {
    list.map_values(|r: SearchRow| r@)
}

/// The search index.
pub struct SearchData {
    pub rows: Vec<SearchRow>,
}

impl View for SearchData {
    type V = Seq<IndexedFile>;

    open spec fn view(&self) -> Seq<IndexedFile> {
        indexed(self.rows@)
    }
}

// ── Building ─────────────────────────────────────────────────────────────────
/// The files of a listing, as the search index has them.
pub open spec fn files_of(folder: Seq<char>, listing: Seq<DirRow>) -> Seq<IndexedFile>
    decreases listing.len(),
{
    if listing.len() == 0 {
        Seq::empty()
    } else {
        let head = files_of(folder, listing.drop_last());
        let e = listing.last();
        if e.is_folder {
            head
        } else {
            head.push(
                IndexedFile { href_lc: lowercase(e.href), folder, size_bytes: e.size_bytes },
            )
        }
    }
}

/// The files of all folders whose listing can be read.
pub open spec fn all_files(data: Seq<u8>, pairs: Seq<(Seq<char>, IndexRecord)>) -> Seq<IndexedFile>
    decreases pairs.len(),
{
    if pairs.len() == 0 {
        Seq::empty()
    } else {
        let head = all_files(data, pairs.drop_last());
        match listing_at(data, pairs.last().1) {
            Some(listing) => head + files_of(pairs.last().0, listing),
            None => head,
        }
    }
}

fn push_files(out: &mut Vec<SearchRow>, folder: &str, entries: &Vec<DirEntry>)
    ensures
        indexed(final(out)@) == indexed(old(out)@) + files_of(folder@, rows(entries@)),
{
    let ghost start = indexed(out@);
    let ghost listing = rows(entries@);
    let mut i: usize = 0;
    assert(listing.take(0) =~= Seq::<DirRow>::empty());
    assert(indexed(out@) =~= start + files_of(folder@, listing.take(0)));
    while i < entries.len()
        invariant
            listing == rows(entries@),
            i <= entries@.len(),
            indexed(out@) == start + files_of(folder@, listing.take(i as int)),
        decreases entries@.len() - i,
    {
        let e = &entries[i];
        let ghost before = indexed(out@);
        proof {
            assert(listing.take(i + 1).drop_last() =~= listing.take(i as int));
            assert(listing.take(i + 1).last() == e@);
        }
        if !e.is_folder {
            let row = SearchRow {
                href_lc: to_lower(e.href.as_str()),
                folder: folder.to_owned(),
                size_bytes: e.size_bytes,
            };
            let ghost r = row@;
            out.push(row);
            assert(indexed(out@) =~= before.push(r));
            assert(indexed(out@) =~= start + files_of(folder@, listing.take(i + 1)));
        }
        i = i + 1;
    }
    assert(listing.take(entries@.len() as int) =~= listing);
}

/// Builds the search index of all files that the index knows.
pub fn build_search(index: &LocalIndex) -> (data: SearchData)
    requires
        index.wf(),
    ensures
        data@ == all_files(index@, index_order(index@)),
{
    let ghost pairs = index.pairs();
    proof {
        index.lemma_pairs();
    }
    let n: usize = folder_count(index);
    let mut out: Vec<SearchRow> = Vec::new();
    let mut i: usize = 0;
    assert(pairs.take(0) =~= Seq::<(Seq<char>, IndexRecord)>::empty());
    assert(indexed(out@) =~= all_files(index@, pairs.take(0)));
    while i < n
        invariant
            pairs == index.pairs(),
            i <= n == pairs.len(),
            indexed(out@) == all_files(index@, pairs.take(i as int)),
        decreases n - i,
    {
        proof {
            assert(pairs.take(i + 1).drop_last() =~= pairs.take(i as int));
            assert(pairs.take(i + 1).last() == pairs[i as int]);
        }
        match index.entries_at(i) {
            Some(entries) => {
                push_files(&mut out, index.path_at(i).as_str(), &entries);
            },
            None => {},
        }
        i = i + 1;
    }
    assert(pairs.take(n as int) =~= pairs);
    SearchData { rows: out }
}

/// Builds the search index unless there is one: what is there stays.
pub fn warm_search_index(slot: &mut Option<SearchData>, index: &LocalIndex)
    requires
        index.wf(),
    ensures
        *old(slot) is Some ==> *final(slot) == *old(slot),
        *old(slot) is None ==> match *final(slot) {
            Some(data) => data@ == all_files(index@, index_order(index@)),
            None => false,
        },
{
    if slot.is_none() {
        *slot = Some(build_search(index));
    }
}

/// Whether there is a search index.
pub fn search_ready(slot: &Option<SearchData>) -> (ready: bool)
    ensures
        ready == (*slot is Some),
{
    slot.is_some()
}

// ── Searching ────────────────────────────────────────────────────────────────
/// A file that a search found.
pub struct SearchEntry<'a> {
    pub href_lc: &'a str,
    pub folder: &'a str,
    pub name: String,
    pub size_bytes: u64,
}

/// What a search says of a file.
#[verifier::ext_equal]
pub struct SearchHit {
    pub href_lc: Seq<char>,
    pub folder: Seq<char>,
    pub name: Seq<char>,
    pub size_bytes: u64,
}

impl<'a> View for SearchEntry<'a> {
    type V = SearchHit;

    open spec fn view(&self) -> SearchHit {
        SearchHit {
            href_lc: self.href_lc@,
            folder: self.folder@,
            name: self.name@,
            size_bytes: self.size_bytes,
        }
    }
}

pub open spec fn hits_view(list: Seq<SearchEntry>) -> Seq<SearchHit> {
    list.map_values(|e: SearchEntry| e@)
}

pub open spec fn hit_of(f: IndexedFile) -> SearchHit {
    SearchHit {
        href_lc: f.href_lc,
        folder: f.folder,
        name: decoded_name(f.href_lc),
        size_bytes: f.size_bytes,
    }
}

/// The files whose link holds `q`, in the order of the search index.
pub open spec fn hits(files: Seq<IndexedFile>, q: Seq<char>) -> Seq<SearchHit>
    decreases files.len(),
{
    if files.len() == 0 {
        Seq::empty()
    } else {
        let head = hits(files.drop_last(), q);
        if occurs_in(q, files.last().href_lc) {
            head.push(hit_of(files.last()))
        } else {
            head
        }
    }
}

/// The files whose link holds the query, whatever its case: none while there is no search index.
pub fn search<'a>(slot: &'a Option<SearchData>, query: &str) -> (found: Vec<SearchEntry<'a>>)
    ensures
        hits_view(found@) == match *slot {
            Some(data) => hits(data@, lowercase(query@)),
            None => Seq::empty(),
        },
        is_ascii_chars(query@) ==> hits_view(found@) == match *slot {
            Some(data) => hits(data@, ascii_lower(query@)),
            None => Seq::empty(),
        },
{
    let q = to_lower(query);
    let mut found: Vec<SearchEntry<'a>> = Vec::new();
    assert(hits_view(found@) =~= Seq::<SearchHit>::empty());
    match slot {
        None => found,
        Some(data) => {
            let ghost files = data@;
            let mut i: usize = 0;
            assert(files.take(0) =~= Seq::<IndexedFile>::empty());
            while i < data.rows.len()
                invariant
                    files == data@,
                    files.len() == data.rows@.len(),
                    i <= data.rows@.len(),
                    hits_view(found@) == hits(files.take(i as int), q@),
                decreases data.rows@.len() - i,
            {
                let row = &data.rows[i];
                let ghost before = hits_view(found@);
                proof {
                    assert(files.take(i + 1).drop_last() =~= files.take(i as int));
                    assert(files.take(i + 1).last() == row@);
                }
                if contains_text(row.href_lc.as_str(), q.as_str()) {
                    let entry = SearchEntry {
                        href_lc: row.href_lc.as_str(),
                        folder: row.folder.as_str(),
                        name: url_decode_name(row.href_lc.as_str()),
                        size_bytes: row.size_bytes,
                    };
                    let ghost h = entry@;
                    found.push(entry);
                    assert(hits_view(found@) =~= before.push(h));
                }
                i = i + 1;
            }
            assert(files.take(data.rows@.len() as int) =~= files);
            found
        },
    }
}

// ── The search tab's results ─────────────────────────────────────────────────
/// The most results that are shown.
pub const MAX_RESULTS: usize = 500;

/// A result as it is shown: the decoded folder beside the folder and path as they are addressed.
pub struct SearchResult {
    pub name: String,
    pub folder: String,
    pub full_path: String,
    pub size_bytes: u64,
    pub raw_folder: String,
}

/// What a result says.
#[verifier::ext_equal]
pub struct ResultRow {
    pub name: Seq<char>,
    pub folder: Seq<char>,
    pub full_path: Seq<char>,
    pub size_bytes: u64,
    pub raw_folder: Seq<char>,
}

impl View for SearchResult {
    type V = ResultRow;

    open spec fn view(&self) -> ResultRow {
        ResultRow {
            name: self.name@,
            folder: self.folder@,
            full_path: self.full_path@,
            size_bytes: self.size_bytes,
            raw_folder: self.raw_folder@,
        }
    }
}

pub open spec fn results_view(list: Seq<SearchResult>) -> Seq<ResultRow> {
    list.map_values(|r: SearchResult| r@)
}

/// Whether a hit's folder, as it is shown, holds `inc`, where that is given, and does not hold
/// `exc`.
pub open spec fn passes(hit: SearchHit, inc: Seq<char>, exc: Seq<char>) -> bool {
    &&& inc.len() == 0 || occurs_in(inc, lowercase(decoded_path(hit.folder)))
    &&& exc.len() == 0 || !occurs_in(exc, lowercase(decoded_path(hit.folder)))
}

/// The hits that pass, in their order.
pub open spec fn passing(list: Seq<SearchHit>, inc: Seq<char>, exc: Seq<char>) -> Seq<SearchHit>
    decreases list.len(),
{
    if list.len() == 0 {
        Seq::empty()
    } else {
        let head = passing(list.drop_last(), inc, exc);
        if passes(list.last(), inc, exc) {
            head.push(list.last())
        } else {
            head
        }
    }
}

/// A path with each segment decoded.
pub open spec fn decoded_path(path: Seq<char>) -> Seq<char> {
    joined(split_on(path, '/').map_values(|s: Seq<char>| decoded(s)), "/"@)
}

pub open spec fn result_of(hit: SearchHit) -> ResultRow {
    ResultRow {
        name: hit.name,
        folder: decoded_path(hit.folder),
        full_path: hit.folder + "/"@ + hit.href_lc,
        size_bytes: hit.size_bytes,
        raw_folder: hit.folder,
    }
}

/// The first `n` of the list, or all where there are fewer.
pub open spec fn first_of<A>(list: Seq<A>, n: nat) -> Seq<A> {
    if list.len() < n {
        list
    } else {
        list.take(n as int)
    }
}

/// What the search tab shows for a query and its two filters, all in lower case.
pub open spec fn shown_results(
    files: Seq<IndexedFile>,
    q: Seq<char>,
    inc: Seq<char>,
    exc: Seq<char>,
) -> Seq<ResultRow> {
    first_of(passing(hits(files, lowercase(q)), inc, exc), MAX_RESULTS as nat).map_values(
        |h: SearchHit| result_of(h),
    )
}

/// A path with each segment decoded.
pub fn decode_path(path: &str) -> (text: String)
    ensures
        text@ == decoded_path(path@),
{
    let pieces = split_char(path, '/');
    let ghost raw = texts(pieces@);
    let ghost wanted = raw.map_values(|s: Seq<char>| decoded(s));
    let mut out: Vec<String> = Vec::new();
    let mut i: usize = 0;
    assert(texts(out@) =~= wanted.take(0));
    while i < pieces.len()
        invariant
            raw == texts(pieces@),
            wanted == raw.map_values(|s: Seq<char>| decoded(s)),
            i <= pieces@.len(),
            texts(out@) == wanted.take(i as int),
        decreases pieces@.len() - i,
    {
        let ghost before = texts(out@);
        let piece = url_decode(pieces[i].as_str());
        let ghost p = piece@;
        out.push(piece);
        proof {
            assert(raw[i as int] == pieces@[i as int]@);
            assert(texts(out@) =~= before.push(p));
            assert(wanted.take(i + 1) =~= wanted.take(i as int).push(wanted[i as int]));
        }
        i = i + 1;
    }
    assert(wanted.take(pieces@.len() as int) =~= wanted);
    join(&out, "/")
}

fn keep_hit(hit: &SearchEntry, inc: &str, exc: &str) -> (keep: bool)
    ensures
        keep == passes(hit@, inc@, exc@),
{
    let folder = to_lower(decode_path(hit.folder).as_str());
    (inc.unicode_len() == 0 || contains_text(folder.as_str(), inc)) && (exc.unicode_len() == 0
        || !contains_text(folder.as_str(), exc))
}

/// What the search tab shows for a query and its two filters, all in lower case.
pub fn search_results(slot: &Option<SearchData>, q: &str, inc: &str, exc: &str) -> (results: Vec<
    SearchResult,
>)
    ensures
        results_view(results@) == match *slot {
            Some(data) => shown_results(data@, q@, inc@, exc@),
            None => Seq::empty(),
        },
{
    let found = search(slot, q);
    let ghost list = hits_view(found@);
    let ghost mut kept: Seq<SearchHit> = Seq::empty();
    let mut results: Vec<SearchResult> = Vec::new();
    let mut i: usize = 0;
    proof {
        assert(list.take(0) =~= Seq::<SearchHit>::empty());
        assert(results_view(results@) =~= kept.map_values(|h: SearchHit| result_of(h)));
    }
    while i < found.len() && results.len() < MAX_RESULTS
        invariant
            list == hits_view(found@),
            i <= found@.len(),
            kept == passing(list.take(i as int), inc@, exc@),
            kept.len() <= MAX_RESULTS,
            results_view(results@) == kept.map_values(|h: SearchHit| result_of(h)),
        decreases found@.len() - i,
    {
        let hit = &found[i];
        let ghost h = hit@;
        proof {
            assert(list.take(i + 1).drop_last() =~= list.take(i as int));
            assert(list.take(i + 1).last() == h);
        }
        if keep_hit(hit, inc, exc) {
            let result = SearchResult {
                name: hit.name.clone(),
                folder: decode_path(hit.folder),
                full_path: concat3(hit.folder, "/", hit.href_lc),
                size_bytes: hit.size_bytes,
                raw_folder: hit.folder.to_owned(),
            };
            let ghost before = results_view(results@);
            let ghost r = result@;
            results.push(result);
            proof {
                assert(r =~= result_of(h));
                assert(results_view(results@) =~= before.push(r));
                assert(kept.push(h).map_values(|h: SearchHit| result_of(h)) =~= before.push(r));
                kept = kept.push(h);
            }
        }
        i = i + 1;
    }
    proof {
        if slot is Some {
            let all = passing(list, inc@, exc@);
            lemma_passing_prefix(list, inc@, exc@, i as int);
            if i == list.len() {
                assert(list.take(i as int) =~= list);
            }
            assert(first_of(all, MAX_RESULTS as nat) =~= kept);
        } else {
            assert(results_view(results@) =~= Seq::<ResultRow>::empty());
        }
    }
    results
}

/// What passes of a list begins with what passes of its beginning.
proof fn lemma_passing_prefix(list: Seq<SearchHit>, inc: Seq<char>, exc: Seq<char>, n: int)
    requires
        0 <= n <= list.len(),
    ensures
        passing(list.take(n), inc, exc).len() <= passing(list, inc, exc).len(),
        passing(list, inc, exc).take(passing(list.take(n), inc, exc).len() as int) == passing(
            list.take(n),
            inc,
            exc,
        ),
    decreases list.len(),
{
    if n == list.len() {
        assert(list.take(n) =~= list);
        assert(passing(list, inc, exc).take(passing(list, inc, exc).len() as int) =~= passing(
            list,
            inc,
            exc,
        ));
    } else {
        let head = list.drop_last();
        lemma_passing_prefix(head, inc, exc, n);
        assert(head.take(n) =~= list.take(n));
        let k = passing(list.take(n), inc, exc).len() as int;
        assert(passing(list, inc, exc).take(k) =~= passing(head, inc, exc).take(k));
    }
}

/// The line above the results.
pub open spec fn match_text(n: nat) -> Seq<char> {
    if n >= 500 {
        "500+ matches (refine your search)"@
    } else {
        counted(n, "match"@, "es"@)
    }
}

/// The line above the results.
pub fn match_line(n: usize) -> (text: String)
    ensures
        text@ == match_text(n as nat),
{
    if n >= 500 {
        "500+ matches (refine your search)".to_owned()
    } else {
        count_of(n, "match", "es")
    }
}

// ── From a result to its file ────────────────────────────────────────────────
/// The link of the first entry whose link in lower case is `wanted`.
pub open spec fn first_link(listing: Seq<DirRow>, wanted: Seq<char>) -> Option<Seq<char>>
    decreases listing.len(),
{
    if listing.len() == 0 {
        None
    } else if lowercase(listing[0].href) == wanted {
        Some(listing[0].href)
    } else {
        first_link(listing.skip(1), wanted)
    }
}

/// What stands after the last slash; nothing where there is none.
pub open spec fn last_part(path: Seq<char>) -> Seq<char> {
    match last_index_of(path, '/') {
        Some(i) => path.skip(i + 1),
        None => Seq::empty(),
    }
}

/// The URL of the file that a result shows. The search index knows links in lower case only: the
/// link as the server has it is found in the folder's listing. Where it is not there, the path is
/// taken as it is.
pub open spec fn result_address(data: Seq<u8>, raw_folder: Seq<char>, full_path: Seq<char>) -> Seq<
    char,
> {
    let plain = BASE_URL@ + full_path;
    match looked_up(data, raw_folder) {
        Some(listing) => match first_link(listing, last_part(full_path)) {
            Some(href) => match url_joined(BASE_URL@, raw_folder + "/"@ + href) {
                Some(url) => url,
                None => plain,
            },
            None => plain,
        },
        None => plain,
    }
}

fn find_link(entries: &Vec<DirEntry>, wanted: &str) -> (href: Option<String>)
    ensures
        match href {
            Some(h) => first_link(rows(entries@), wanted@) == Some(h@),
            None => first_link(rows(entries@), wanted@) is None,
        },
{
    let ghost listing = rows(entries@);
    let mut i: usize = 0;
    assert(listing.skip(0) =~= listing);
    while i < entries.len()
        invariant
            listing == rows(entries@),
            i <= entries@.len(),
            first_link(listing, wanted@) == first_link(listing.skip(i as int), wanted@),
        decreases entries@.len() - i,
    {
        let lower = to_lower(entries[i].href.as_str());
        proof {
            assert(listing.skip(i as int)[0] == entries@[i as int]@);
            assert(listing.skip(i as int).skip(1) =~= listing.skip(i + 1));
        }
        if same_text(lower.as_str(), wanted) {
            return Some(entries[i].href.clone());
        }
        i = i + 1;
    }
    None
}

/// The URL of the file that a result shows.
pub fn result_url(index: &LocalIndex, raw_folder: &str, full_path: &str) -> (url: String)
    requires
        index.wf(),
    ensures
        url@ == result_address(index@, raw_folder@, full_path@),
{
    let wanted = match split_last(full_path, '/') {
        Some((_, last)) => last,
        None => String::new(),
    };
    assert(wanted@ =~= last_part(full_path@));
    let found: Option<String> = match lookup(index, raw_folder) {
        Some(entries) => match find_link(&entries, wanted.as_str()) {
            Some(href) => {
                let link = concat3(raw_folder, "/", href.as_str());
                url_join(BASE_URL, link.as_str())
            },
            None => None,
        },
        None => None,
    };
    match found {
        Some(url) => url,
        None => concat(BASE_URL, full_path),
    }
}

// ── What a search promises ───────────────────────────────────────────────────
/// The hit is a file of the search index whose link holds `q`.
pub open spec fn is_match(files: Seq<IndexedFile>, q: Seq<char>, hit: SearchHit) -> bool {
    exists|i: int|
        0 <= i < files.len() && hit == hit_of(#[trigger] files[i]) && occurs_in(
            q,
            files[i].href_lc,
        )
}

/// A search finds every file whose link holds the query, and no other.
pub proof fn law_search_finds_exactly(files: Seq<IndexedFile>, q: Seq<char>)
    ensures
        forall|hit: SearchHit| #[trigger] hits(files, q).contains(hit) <==> is_match(files, q, hit),
    decreases files.len(),
{
    let after = hits(files, q);
    if files.len() > 0 {
        let head = files.drop_last();
        let before = hits(head, q);
        law_search_finds_exactly(head, q);
        assert forall|hit: SearchHit| #[trigger] after.contains(hit) <==> is_match(
            files,
            q,
            hit,
        ) by {
            if after.contains(hit) {
                let j = choose|j: int| 0 <= j < after.len() && after[j] == hit;
                if j < before.len() {
                    assert(before[j] == hit);
                    assert(before.contains(hit));
                    let i = choose|i: int|
                        0 <= i < head.len() && hit == hit_of(#[trigger] head[i]) && occurs_in(
                            q,
                            head[i].href_lc,
                        );
                    assert(files[i] == head[i]);
                } else {
                    assert(hit == hit_of(files[files.len() - 1]));
                }
            }
            if is_match(files, q, hit) {
                let i = choose|i: int|
                    0 <= i < files.len() && hit == hit_of(#[trigger] files[i]) && occurs_in(
                        q,
                        files[i].href_lc,
                    );
                if i < head.len() {
                    assert(head[i] == files[i]);
                    assert(before.contains(hit));
                    let j = choose|j: int| 0 <= j < before.len() && before[j] == hit;
                    assert(after[j] == hit);
                } else {
                    assert(after[before.len() as int] == hit);
                }
            }
        }
    }
}

/// Every result that is shown is a hit that obeys both filters, and at most 500 are shown.
pub proof fn law_filters_hold(list: Seq<SearchHit>, inc: Seq<char>, exc: Seq<char>)
    ensures
        forall|j: int|
            0 <= j < passing(list, inc, exc).len() ==> {
                let hit = #[trigger] passing(list, inc, exc)[j];
                passes(hit, inc, exc) && list.contains(hit)
            },
        forall|i: int|
            0 <= i < list.len() && passes(#[trigger] list[i], inc, exc) ==> passing(
                list,
                inc,
                exc,
            ).contains(list[i]),
        first_of(passing(list, inc, exc), MAX_RESULTS as nat).len() <= 500,
    decreases list.len(),
{
    if list.len() > 0 {
        let head = list.drop_last();
        let before = passing(head, inc, exc);
        let after = passing(list, inc, exc);
        law_filters_hold(head, inc, exc);
        assert forall|j: int| 0 <= j < after.len() implies ({
            let hit = #[trigger] after[j];
            passes(hit, inc, exc) && list.contains(hit)
        }) by {
            if j < before.len() {
                assert(head.contains(before[j]));
                let i = choose|i: int| 0 <= i < head.len() && head[i] == before[j];
                assert(list[i] == after[j]);
            } else {
                assert(list[list.len() - 1] == after[j]);
            }
        }
        assert forall|i: int|
            0 <= i < list.len() && passes(#[trigger] list[i], inc, exc) implies after.contains(
            list[i],
        ) by {
            if i < head.len() {
                assert(head[i] == list[i]);
                let j = choose|j: int| 0 <= j < before.len() && before[j] == list[i];
                assert(after[j] == list[i]);
            } else {
                assert(after[before.len() as int] == list[i]);
            }
        }
    }
}

/// What is left of `b` where some of its items are taken out.
pub open spec fn is_subsequence<A>(a: Seq<A>, b: Seq<A>) -> bool
    decreases b.len(),
{
    a.len() == 0 || (b.len() > 0 && (is_subsequence(a, b.drop_last()) || (a.last() == b.last()
        && is_subsequence(a.drop_last(), b.drop_last()))))
}

/// The empty query finds every file, in the order of the search index.
pub proof fn law_empty_query_finds_all(files: Seq<IndexedFile>)
    ensures
        hits(files, ascii_lower(Seq::empty())) == files.map_values(|f: IndexedFile| hit_of(f)),
    decreases files.len(),
{
    let q = ascii_lower(Seq::empty());
    let all = files.map_values(|f: IndexedFile| hit_of(f));
    assert(q =~= Seq::<char>::empty());
    if files.len() > 0 {
        law_empty_query_finds_all(files.drop_last());
        let link = files.last().href_lc;
        assert(link.subrange(0int, 0int + q.len()) =~= q);
        assert(hits(files, q) =~= all);
    } else {
        assert(hits(files, q) =~= all);
    }
}

proof fn lemma_narrows(files: Seq<IndexedFile>, q1: Seq<char>, q2: Seq<char>)
    requires
        occurs_in(q1, q2),
    ensures
        is_subsequence(hits(files, q2), hits(files, q1)),
    decreases files.len(),
{
    if files.len() > 0 {
        lemma_narrows(files.drop_last(), q1, q2);
        let link = files.last().href_lc;
        let before = hits(files.drop_last(), q1);
        let before2 = hits(files.drop_last(), q2);
        let x = hit_of(files.last());
        if occurs_in(q2, link) {
            let i = choose|i: int|
                0 <= i <= link.len() - q2.len() && #[trigger] link.subrange(i, i + q2.len()) == q2;
            let j = choose|j: int|
                0 <= j <= q2.len() - q1.len() && #[trigger] q2.subrange(j, j + q1.len()) == q1;
            assert(link.subrange(i + j, i + j + q1.len()) =~= q2.subrange(j, j + q1.len()));
            assert(before2.push(x).drop_last() =~= before2);
        }
        assert(before.push(x).drop_last() =~= before);
    }
}

/// A longer query finds no more: what it finds is what the shorter one finds, with some files taken
/// out. (Both queries are ASCII texts.)
pub proof fn law_longer_query_narrows(files: Seq<IndexedFile>, q1: Seq<char>, q2: Seq<char>)
    requires
        is_ascii_chars(q1),
        is_ascii_chars(q2),
        occurs_in(q1, q2),
    ensures
        is_subsequence(hits(files, ascii_lower(q2)), hits(files, ascii_lower(q1))),
{
    let a = ascii_lower(q1);
    let b = ascii_lower(q2);
    let j = choose|j: int|
        0 <= j <= q2.len() - q1.len() && #[trigger] q2.subrange(j, j + q1.len()) == q1;
    assert forall|k: int| 0 <= k < a.len() implies b.subrange(j, j + a.len())[k] == a[k] by {
        assert(q2.subrange(j, j + q1.len())[k] == q2[j + k]);
    }
    assert(b.subrange(j, j + a.len()) =~= a);
    lemma_narrows(files, a, b);
}

/// A query in capitals finds what it finds in small letters. (It is an ASCII text.)
pub proof fn law_case_ignored(files: Seq<IndexedFile>, q: Seq<char>)
    requires
        is_ascii_chars(q),
    ensures
        is_ascii_chars(ascii_upper(q)),
        hits(files, ascii_lower(ascii_upper(q))) == hits(files, ascii_lower(q)),
{
    let upper = ascii_upper(q);
    assert forall|i: int| 0 <= i < upper.len() implies ascii_lower(upper)[i] == ascii_lower(q)[i]
        && (upper[i] as u32) < 128 by {
        assert((q[i] as u32) < 128);
    }
    assert(ascii_lower(upper) =~= ascii_lower(q));
}

/// Every file of a folder is in the search index, with its link in lower case, and no folder is.
pub proof fn law_files_indexed(folder: Seq<char>, listing: Seq<DirRow>, e: DirRow)
    ensures
        files_of(folder, Seq::empty()) == Seq::<IndexedFile>::empty(),
        e.is_folder ==> files_of(folder, listing.push(e)) == files_of(folder, listing),
        !e.is_folder ==> files_of(folder, listing.push(e)) == files_of(folder, listing).push(
            IndexedFile { href_lc: lowercase(e.href), folder, size_bytes: e.size_bytes },
        ),
{
    assert(listing.push(e).drop_last() =~= listing);
}

/// The files of every folder whose block can be read are in the search index, folder by folder.
pub proof fn law_folders_indexed(
    data: Seq<u8>,
    pairs: Seq<(Seq<char>, IndexRecord)>,
    path: Seq<char>,
    record: IndexRecord,
)
    ensures
        all_files(data, Seq::empty()) == Seq::<IndexedFile>::empty(),
        all_files(data, pairs.push((path, record))) == (match listing_at(data, record) {
            Some(listing) => all_files(data, pairs) + files_of(path, listing),
            None => all_files(data, pairs),
        }),
{
    assert(pairs.push((path, record)).drop_last() =~= pairs);
}

/// A file is found where its link holds the query, after those that come before it in the index,
/// with its folder, its size and the name that its link shows.
pub proof fn law_hit(files: Seq<IndexedFile>, f: IndexedFile, q: Seq<char>)
    ensures
        hits(Seq::empty(), q) == Seq::<SearchHit>::empty(),
        !occurs_in(q, f.href_lc) ==> hits(files.push(f), q) == hits(files, q),
        occurs_in(q, f.href_lc) ==> hits(files.push(f), q) == hits(files, q).push(
            SearchHit {
                href_lc: f.href_lc,
                folder: f.folder,
                name: decoded(trim_end_of(f.href_lc, '/')),
                size_bytes: f.size_bytes,
            },
        ),
{
    assert(files.push(f).drop_last() =~= files);
}

/// Each filter holds by itself, whatever the other is: a hit passes where its folder, decoded and in
/// lower case, holds the one text and does not hold the other. An empty filter lets everything pass.
pub proof fn law_filters_by_folder(hit: SearchHit, inc: Seq<char>, exc: Seq<char>)
    ensures
        passes(hit, Seq::empty(), Seq::empty()),
        inc.len() > 0 && passes(hit, inc, exc) ==> occurs_in(
            inc,
            lowercase(decoded_path(hit.folder)),
        ),
        exc.len() > 0 && passes(hit, inc, exc) ==> !occurs_in(
            exc,
            lowercase(decoded_path(hit.folder)),
        ),
        passes(hit, inc, exc) <==> passes(hit, inc, Seq::empty()) && passes(hit, Seq::empty(), exc),
        inc.len() > 0 ==> (passes(hit, inc, Seq::empty()) <==> occurs_in(
            inc,
            lowercase(decoded_path(hit.folder)),
        )),
        exc.len() > 0 ==> (passes(hit, Seq::empty(), exc) <==> !occurs_in(
            exc,
            lowercase(decoded_path(hit.folder)),
        )),
{
}

/// The hits that pass stay in their order, and the others go.
pub proof fn law_filtered_in_order(
    list: Seq<SearchHit>,
    hit: SearchHit,
    inc: Seq<char>,
    exc: Seq<char>,
)
    ensures
        passing(Seq::empty(), inc, exc) == Seq::<SearchHit>::empty(),
        passing(list.push(hit), inc, exc) == (if (inc.len() == 0 || occurs_in(
            inc,
            lowercase(decoded_path(hit.folder)),
        )) && (exc.len() == 0 || !occurs_in(exc, lowercase(decoded_path(hit.folder)))) {
            passing(list, inc, exc).push(hit)
        } else {
            passing(list, inc, exc)
        }),
{
    assert(list.push(hit).drop_last() =~= list);
}

proof fn lemma_joined_concat(a: Seq<Seq<char>>, b: Seq<Seq<char>>, sep: Seq<char>)
    requires
        a.len() > 0,
        b.len() > 0,
    ensures
        joined(a + b, sep) == joined(a, sep) + sep + joined(b, sep),
    decreases b.len(),
{
    let all = a + b;
    assert(all.last() == b.last());
    if b.len() == 1 {
        assert(all.drop_last() =~= a);
    } else {
        lemma_joined_concat(a, b.drop_last(), sep);
        assert(all.drop_last() =~= a + b.drop_last());
        assert(joined(all, sep) =~= joined(a, sep) + sep + joined(b, sep));
    }
}

/// A path is decoded name by name, and its slashes stay.
pub proof fn law_decoded_path(a: Seq<char>, b: Seq<char>)
    ensures
        !a.contains('/') ==> decoded_path(a) == decoded(a),
        decoded_path(a.push('/') + b) == decoded_path(a) + "/"@ + decoded_path(b),
{
    law_split(a, '/', b);
    law_split(b, '/', a);
    let names = |t: Seq<char>| split_on(t, '/').map_values(|s: Seq<char>| decoded(s));
    lemma_joined_concat(names(a), names(b), "/"@);
    assert(names(a.push('/') + b) =~= names(a) + names(b));
    if !a.contains('/') {
        assert(names(a) =~= seq![decoded(a)]);
    }
}

/// A result shows the hit's name and its decoded folder, and keeps the path by which its file is
/// found again.
pub proof fn law_result_fields(hit: SearchHit)
    ensures
        result_of(hit).name == hit.name,
        result_of(hit).folder == decoded_path(hit.folder),
        result_of(hit).raw_folder == hit.folder,
        result_of(hit).size_bytes == hit.size_bytes,
        result_of(hit).full_path == hit.folder + "/"@ + hit.href_lc,
{
}

/// The results are the first five hundred hits that pass, in their order.
pub proof fn law_results_shown(
    files: Seq<IndexedFile>,
    q: Seq<char>,
    inc: Seq<char>,
    exc: Seq<char>,
    i: int,
)
    ensures
        ({
            let found = passing(hits(files, lowercase(q)), inc, exc);
            let shown = shown_results(files, q, inc, exc);
            &&& shown.len() == (if found.len() < 500 {
                found.len()
            } else {
                500
            })
            &&& 0 <= i < shown.len() ==> shown[i] == result_of(found[i])
        }),
{
}

/// What is said of the number of results.
pub proof fn law_match_text(n: nat)
    ensures
        match_text(1) == decimal(1) + " match"@,
        n != 1 && n < 500 ==> match_text(n) == decimal(n) + " matches"@,
        n >= 500 ==> match_text(n) == match_text(500) && match_text(n) == "500+ matches (refine your search)"@,
{
    reveal_strlit(" ");
    reveal_strlit("match");
    reveal_strlit("es");
    reveal_strlit(" match");
    reveal_strlit(" matches");
    assert(match_text(1) =~= decimal(1) + " match"@);
    if n != 1 && n < 500 {
        assert(match_text(n) =~= decimal(n) + " matches"@);
    }
}

/// The link of a result is the first of its folder that is the wanted one in lower case.
pub proof fn law_first_link(listing: Seq<DirRow>, wanted: Seq<char>, i: int)
    requires
        0 <= i < listing.len(),
        lowercase(listing[i].href) == wanted,
        forall|k: int| 0 <= k < i ==> lowercase((#[trigger] listing[k]).href) != wanted,
    ensures
        first_link(listing, wanted) == Some(listing[i].href),
    decreases listing.len(),
{
    if i > 0 {
        assert(lowercase(listing[0].href) != wanted);
        let rest = listing.skip(1);
        assert(rest[i - 1] == listing[i]);
        assert forall|k: int| 0 <= k < i - 1 implies lowercase((#[trigger] rest[k]).href)
            != wanted by {
            assert(lowercase(listing[k + 1].href) != wanted);
        }
        law_first_link(rest, wanted, i - 1);
    }
}

proof fn lemma_no_link(listing: Seq<DirRow>, wanted: Seq<char>)
    requires
        forall|k: int| 0 <= k < listing.len() ==> lowercase((#[trigger] listing[k]).href) != wanted,
    ensures
        first_link(listing, wanted) is None,
    decreases listing.len(),
{
    if listing.len() > 0 {
        assert(lowercase(listing[0].href) != wanted);
        let rest = listing.skip(1);
        assert forall|k: int| 0 <= k < rest.len() implies lowercase((#[trigger] rest[k]).href)
            != wanted by {
            assert(lowercase(listing[k + 1].href) != wanted);
        }
        lemma_no_link(rest, wanted);
    }
}

/// A result leads to the file in its folder whose link is the result's in lower case: to that link
/// with its own case. Where the folder has no such file, and where the folder is not known, it leads
/// to the path as it was found.
pub proof fn law_result_address(data: Seq<u8>, folder: Seq<char>, link: Seq<char>, i: int)
    requires
        !link.contains('/'),
    ensures
        ({
            let address = result_address(data, folder, folder.push('/') + link);
            let plain = BASE_URL@ + (folder.push('/') + link);
            match looked_up(data, folder) {
                Some(listing) => {
                    &&& 0 <= i < listing.len() && lowercase(listing[i].href) == link && (forall|
                        k: int,
                    |
                        0 <= k < i ==> lowercase((#[trigger] listing[k]).href) != link)
                        && url_joined(BASE_URL@, folder + "/"@ + listing[i].href) is Some ==> Some(
                        address,
                    ) == url_joined(BASE_URL@, folder + "/"@ + listing[i].href)
                    &&& (forall|k: int|
                        0 <= k < listing.len() ==> lowercase((#[trigger] listing[k]).href) != link)
                        ==> address == plain
                },
                None => address == plain,
            }
        }),
{
    let path = folder.push('/') + link;
    law_last_index(path, '/');
    assert(path[folder.len() as int] == '/');
    let at = last_index_of(path, '/')->0;
    if at > folder.len() {
        assert(link[at - folder.len() - 1] == '/');
    }
    assert(path.skip(folder.len() as int + 1) =~= link);
    if let Some(listing) = looked_up(data, folder) {
        if 0 <= i < listing.len() && lowercase(listing[i].href) == link && (forall|k: int|
            0 <= k < i ==> lowercase((#[trigger] listing[k]).href) != link) {
            law_first_link(listing, link, i);
        }
        if forall|k: int|
            0 <= k < listing.len() ==> lowercase((#[trigger] listing[k]).href) != link {
            lemma_no_link(listing, link);
        }
    }
}

/// What is said of a result is what stands in it.
pub proof fn law_row_fields(row: SearchRow, result: SearchResult)
    ensures
        row@.href_lc == row.href_lc@ && row@.folder == row.folder@ && row@.size_bytes
            == row.size_bytes,
        result@.name == result.name@ && result@.folder == result.folder@ && result@.full_path
            == result.full_path@ && result@.raw_folder == result.raw_folder@ && result@.size_bytes
            == result.size_bytes,
{
}

/// Files, hits and results are told one by one.
pub proof fn law_results_one_by_one(
    rows: Seq<SearchRow>,
    found: Seq<SearchEntry>,
    results: Seq<SearchResult>,
    i: int,
)
    ensures
        indexed(rows).len() == rows.len() && hits_view(found).len() == found.len() && results_view(
            results,
        ).len() == results.len(),
        0 <= i < rows.len() ==> indexed(rows)[i] == rows[i]@,
        0 <= i < found.len() ==> hits_view(found)[i] == found[i]@,
        0 <= i < results.len() ==> results_view(results)[i] == results[i]@,
{
}

} // verus!
