//! The crawl: what lies under a folder, the cache, and which folders have to be fetched again.

use crate::listing::{raws, RawEntry, RawRow};
use crate::sort::{sort_texts, sorted_texts};
use crate::strmap::{
    distinct_keys, lemma_map_of, lemma_place_of, map_of, place_of, with_pair, StrMap,
};
use crate::text::{
    chars_of, concat, concat3, same_text, texts, trim_end_of, trim_end_slashes,
};
use crate::url_text::BASE_URL;
use vstd::prelude::*;

verus! {

/// How often a folder is asked for before it is given up.
pub const FETCH_ATTEMPTS: u32 = 3;

/// A folder in the cache: its listing and the bytes under it.
pub struct CachedDir {
    pub entries: Vec<RawEntry>,
    pub total_bytes: u64,
}

impl RawEntry {
    /// The line once more, for the cache.
    pub fn to_cached(&self) -> (copy: RawEntry)
        ensures
            copy@ == self@,
    {
        RawEntry {
            name: self.name.clone(),
            href: self.href.clone(),
            size: self.size.clone(),
            date: self.date.clone(),
            is_folder: self.is_folder,
        }
    }
}

/// The listing once more, for the cache.
pub fn entries_to_cached(entries: &Vec<RawEntry>) -> (copy: Vec<RawEntry>)
    ensures
        raws(copy@) == raws(entries@),
{
    let mut copy: Vec<RawEntry> = Vec::new();
    let mut i: usize = 0;
    while i < entries.len()
        invariant
            i <= entries@.len(),
            copy@.len() == i,
            forall|k: int| 0 <= k < i ==> (#[trigger] copy@[k])@ == entries@[k]@,
        decreases entries@.len() - i,
    {
        copy.push(entries[i].to_cached());
        i = i + 1;
    }
    assert(raws(copy@) =~= raws(entries@));
    copy
}

// ── Addresses ────────────────────────────────────────────────────────────────
/// The key of a folder of the root: its link without the slash.
pub fn top_rel(href: &str) -> (rel: String)
    ensures
        rel@ == trim_end_of(href@, '/'),
{
    trim_end_slashes(href)
}

/// The URL of a folder of the root.
pub fn top_url(href: &str) -> (url: String)
    ensures
        url@ == BASE_URL@ + href@,
{
    concat(BASE_URL, href)
}

/// The key of a folder's subfolder.
pub open spec fn sub_key(rel: Seq<char>, href: Seq<char>) -> Seq<char> {
    rel + "/"@ + trim_end_of(href, '/')
}

/// The key of a folder's subfolder.
pub fn sub_rel(rel: &str, href: &str) -> (sub: String)
    ensures
        sub@ == sub_key(rel@, href@),
{
    concat3(rel, "/", trim_end_slashes(href).as_str())
}

// ── Fetching ─────────────────────────────────────────────────────────────────
/// How many seconds to wait before asking for a folder; `None` where it was asked for often
/// enough. Attempts are counted from zero.
pub fn fetch_wait(attempt: u32) -> (secs: Option<u64>)
    ensures
        secs == match attempt {
            0u32 => Some(0u64),
            1u32 => Some(2u64),
            2u32 => Some(4u64),
            _ => None,
        },
        secs is Some <==> attempt < FETCH_ATTEMPTS,
{
    if attempt == 0 {
        Some(0)
    } else if attempt == 1 {
        Some(2)
    } else if attempt == 2 {
        Some(4)
    } else {
        None
    }
}

/// The failure where a folder could not be had.
pub fn fetch_failure(last: &str) -> (message: String)
    ensures
        message@ == "failed after 3 retries: "@ + last@,
{
    concat("failed after 3 retries: ", last)
}

/// Whether the cache is to be saved after folder number `n`.
pub fn is_checkpoint(n: usize) -> (save: bool)
    ensures
        save == (n % 500 == 0),
{
    n % 500 == 0
}

/// The sum of the numbers.
pub open spec fn sum_of(list: Seq<u64>) -> nat
    decreases list.len(),
{
    if list.len() == 0 {
        0
    } else {
        sum_of(list.drop_last()) + list.last() as nat
    }
}

proof fn lemma_sum_prefix(list: Seq<u64>, n: int)
    requires
        0 <= n <= list.len(),
    ensures
        sum_of(list.take(n)) <= sum_of(list),
    decreases list.len(),
{
    if n < list.len() {
        lemma_sum_prefix(list.drop_last(), n);
        assert(list.drop_last().take(n) =~= list.take(n));
    } else {
        assert(list.take(n) =~= list);
    }
}

/// The sum of the numbers.
pub fn sum_bytes(list: &Vec<u64>) -> (sum: u64)
    requires
        sum_of(list@) <= u64::MAX,
    ensures
        sum as nat == sum_of(list@),
{
    let mut sum: u64 = 0;
    let mut i: usize = 0;
    while i < list.len()
        invariant
            sum_of(list@) <= u64::MAX,
            i <= list@.len(),
            sum as nat == sum_of(list@.take(i as int)),
        decreases list@.len() - i,
    {
        proof {
            lemma_sum_prefix(list@, i + 1);
            assert(list@.take(i + 1).drop_last() =~= list@.take(i as int));
        }
        sum = sum + list[i];
        i = i + 1;
    }
    assert(list@.take(list@.len() as int) =~= list@);
    sum
}

/// The bytes of a folder's own files, where `sizes` holds the size of each line.
pub open spec fn file_bytes(rows: Seq<RawRow>, sizes: Seq<u64>) -> nat
    decreases rows.len(),
{
    if rows.len() == 0 {
        0
    } else {
        file_bytes(rows.drop_last(), sizes) + if rows.last().is_folder {
            0
        } else {
            sizes[rows.len() - 1] as nat
        }
    }
}

/// The bytes under a folder: those of its own files and those under each of its folders.
pub open spec fn total_under(rows: Seq<RawRow>, sizes: Seq<u64>, below: Seq<u64>) -> nat {
    file_bytes(rows, sizes) + sum_of(below)
}

proof fn lemma_file_bytes_prefix(rows: Seq<RawRow>, sizes: Seq<u64>, n: int)
    requires
        0 <= n <= rows.len(),
    ensures
        file_bytes(rows.take(n), sizes) <= file_bytes(rows, sizes),
    decreases rows.len(),
{
    if n < rows.len() {
        lemma_file_bytes_prefix(rows.drop_last(), sizes, n);
        assert(rows.drop_last().take(n) =~= rows.take(n));
    } else {
        assert(rows.take(n) =~= rows);
    }
}

/// The bytes under a folder: `sizes` holds the size of each of its lines, `below` the bytes under
/// each of its folders.
pub fn dir_total(entries: &Vec<RawEntry>, sizes: &Vec<u64>, below: &Vec<u64>) -> (total: u64)
    requires
        sizes@.len() == entries@.len(),
        total_under(raws(entries@), sizes@, below@) <= u64::MAX,
    ensures
        total as nat == total_under(raws(entries@), sizes@, below@),
{
    let ghost rows = raws(entries@);
    let mut files: u64 = 0;
    let mut i: usize = 0;
    while i < entries.len()
        invariant
            rows == raws(entries@),
            sizes@.len() == entries@.len(),
            total_under(rows, sizes@, below@) <= u64::MAX,
            i <= entries@.len(),
            files as nat == file_bytes(rows.take(i as int), sizes@),
        decreases entries@.len() - i,
    {
        proof {
            lemma_file_bytes_prefix(rows, sizes@, i + 1);
            assert(rows.take(i + 1).drop_last() =~= rows.take(i as int));
            assert(rows.take(i + 1).last() == entries@[i as int]@);
        }
        if !entries[i].is_folder {
            files = files + sizes[i];
        }
        i = i + 1;
    }
    assert(rows.take(rows.len() as int) =~= rows);
    files + sum_bytes(below)
}

// ── The cache ────────────────────────────────────────────────────────────────
/// The bytes under a folder, as the cache has them.
pub open spec fn total_in(cache: Map<Seq<char>, CachedDir>, rel: Seq<char>) -> Option<u64> {
    if cache.contains_key(rel) {
        Some(cache[rel].total_bytes)
    } else {
        None
    }
}

/// The bytes under a folder that the cache has; `None` where it has to be fetched.
pub fn cached_total(cache: &StrMap<CachedDir>, rel: &str) -> (total: Option<u64>)
    requires
        cache.wf(),
    ensures
        total == total_in(cache@, rel@),
{
    match cache.get(rel) {
        Some(d) => Some(d.total_bytes),
        None => None,
    }
}

/// Puts a folder into the cache.
pub fn store_dir(cache: &mut StrMap<CachedDir>, rel: &str, entries: Vec<RawEntry>, total_bytes: u64)
    requires
        old(cache).wf(),
    ensures
        final(cache).wf(),
        final(cache)@ == old(cache)@.insert(rel@, CachedDir { entries, total_bytes }),
        final(cache).pairs() == with_pair(
            old(cache).pairs(),
            rel@,
            CachedDir { entries, total_bytes },
        ),
{
    cache.insert(rel.to_owned(), CachedDir { entries, total_bytes });
}

/// The bytes under a folder, as far as the cache has them.
pub open spec fn known_total(cache: Map<Seq<char>, CachedDir>, rel: Seq<char>) -> u64 {
    match total_in(cache, rel) {
        Some(n) => n,
        None => 0,
    }
}

/// The bytes under each of the subfolders that a folder lists, in their order, as far as the cache
/// has them.
pub open spec fn below_of(
    cache: Map<Seq<char>, CachedDir>,
    rel: Seq<char>,
    rows: Seq<RawRow>,
) -> Seq<u64>
    decreases rows.len(),
{
    if rows.len() == 0 {
        Seq::empty()
    } else {
        let head = below_of(cache, rel, rows.drop_last());
        if rows.last().is_folder {
            head.push(known_total(cache, sub_key(rel, rows.last().href)))
        } else {
            head
        }
    }
}

/// The bytes under each of the subfolders that a folder lists, as far as the cache has them.
pub fn below_totals(cache: &StrMap<CachedDir>, rel: &str, entries: &Vec<RawEntry>) -> (below: Vec<
    u64,
>)
    requires
        cache.wf(),
    ensures
        below@ == below_of(cache@, rel@, raws(entries@)),
{
    let ghost rows = raws(entries@);
    let mut below: Vec<u64> = Vec::new();
    let mut i: usize = 0;
    assert(below@ =~= below_of(cache@, rel@, rows.take(0)));
    while i < entries.len()
        invariant
            cache.wf(),
            rows == raws(entries@),
            i <= entries@.len(),
            below@ == below_of(cache@, rel@, rows.take(i as int)),
        decreases entries@.len() - i,
    {
        let e = &entries[i];
        proof {
            assert(rows.take(i + 1).drop_last() =~= rows.take(i as int));
            assert(rows.take(i + 1).last() == e@);
        }
        if e.is_folder {
            let sub = sub_rel(rel, e.href.as_str());
            match cached_total(cache, sub.as_str()) {
                Some(n) => below.push(n),
                None => below.push(0),
            }
        }
        i = i + 1;
    }
    assert(rows.take(rows.len() as int) =~= rows);
    below
}

/// The bytes under a folder: its own files, and what the cache has of the subfolders that it lists.
pub open spec fn crawled_total(
    cache: Map<Seq<char>, CachedDir>,
    rel: Seq<char>,
    rows: Seq<RawRow>,
    sizes: Seq<u64>,
) -> nat {
    total_under(rows, sizes, below_of(cache, rel, rows))
}

/// Ends the crawl of a folder, after those of its subfolders, and returns the bytes under it: a
/// folder that was fetched goes into the cache with its total, one that could not be had counts as
/// nothing and stays out.
pub fn store_crawled(
    cache: &mut StrMap<CachedDir>,
    rel: &str,
    fetched: Option<Vec<RawEntry>>,
    sizes: &Vec<u64>,
) -> (total: u64)
    requires
        old(cache).wf(),
        fetched matches Some(entries) ==> sizes@.len() == entries@.len() && crawled_total(
            old(cache)@,
            rel@,
            raws(entries@),
            sizes@,
        ) <= u64::MAX,
    ensures
        final(cache).wf(),
        match fetched {
            Some(entries) => total as nat == crawled_total(
                old(cache)@,
                rel@,
                raws(entries@),
                sizes@,
            ) && final(cache)@ == old(cache)@.insert(
                rel@,
                CachedDir { entries, total_bytes: total },
            ) && final(cache).pairs() == with_pair(
                old(cache).pairs(),
                rel@,
                CachedDir { entries, total_bytes: total },
            ),
            None => total == 0 && final(cache)@ == old(cache)@ && final(cache).pairs() == old(
                cache,
            ).pairs(),
        },
{
    match fetched {
        Some(entries) => {
            let below = below_totals(cache, rel, &entries);
            let total: u64 = dir_total(&entries, sizes, &below);
            store_dir(cache, rel, entries, total);
            total
        },
        None => 0,
    }
}

/// A folder that was crawled is answered from the cache from now on, with the same total, and the
/// other folders are answered as before.
pub proof fn law_crawled_once(cache: Map<Seq<char>, CachedDir>, rel: Seq<char>, dir: CachedDir)
    ensures
        total_in(cache.insert(rel, dir), rel) == Some(dir.total_bytes),
        forall|other: Seq<char>|
            other != rel ==> #[trigger] total_in(cache.insert(rel, dir), other) == total_in(
                cache,
                other,
            ),
{
}

/// The total of a folder is made of one share for each line: a file adds its size, and a folder
/// adds what lies under it.
pub proof fn law_total_by_lines(
    rows: Seq<RawRow>,
    sizes: Seq<u64>,
    below: Seq<u64>,
    row: RawRow,
    size: u64,
    under: u64,
)
    requires
        sizes.len() == rows.len(),
    ensures
        total_under(Seq::empty(), Seq::empty(), Seq::empty()) == 0,
        !row.is_folder ==> total_under(rows.push(row), sizes.push(size), below) == total_under(
            rows,
            sizes,
            below,
        ) + size,
        row.is_folder ==> total_under(rows.push(row), sizes.push(size), below.push(under))
            == total_under(rows, sizes, below) + under,
{
    assert(rows.push(row).drop_last() =~= rows);
    assert(below.push(under).drop_last() =~= below);
    lemma_file_bytes_same(rows, sizes, sizes.push(size));
}

proof fn lemma_file_bytes_same(rows: Seq<RawRow>, a: Seq<u64>, b: Seq<u64>)
    requires
        rows.len() <= a.len(),
        rows.len() <= b.len(),
        forall|i: int| 0 <= i < rows.len() ==> #[trigger] a[i] == b[i],
    ensures
        file_bytes(rows, a) == file_bytes(rows, b),
    decreases rows.len(),
{
    if rows.len() > 0 {
        lemma_file_bytes_same(rows.drop_last(), a, b);
        assert(a[rows.len() - 1] == b[rows.len() - 1]);
    }
}

// ── The whole tree ───────────────────────────────────────────────────────────
/// The sizes of the lines, where `size` says what a size text stands for.
pub open spec fn sizes_of(rows: Seq<RawRow>, size: spec_fn(Seq<char>) -> u64) -> Seq<u64> {
    rows.map_values(|r: RawRow| size(r.size))
}

/// The total that the cache has of a folder is that of its files and of its subfolders' totals.
pub open spec fn adds_up(
    cache: Map<Seq<char>, CachedDir>,
    size: spec_fn(Seq<char>) -> u64,
    rel: Seq<char>,
) -> bool {
    let rows = raws(cache[rel].entries@);
    cache[rel].total_bytes as nat == crawled_total(cache, rel, rows, sizes_of(rows, size))
}

/// All totals in the cache add up. The root has none.
pub open spec fn all_add_up(
    cache: Map<Seq<char>, CachedDir>,
    size: spec_fn(Seq<char>) -> u64,
) -> bool {
    forall|rel: Seq<char>|
        #[trigger] cache.contains_key(rel) && rel.len() > 0 ==> adds_up(cache, size, rel)
}

/// One of the lines is that of the subfolder with the key `sub`.
pub open spec fn lists(rows: Seq<RawRow>, rel: Seq<char>, sub: Seq<char>) -> bool {
    exists|i: int|
        0 <= i < rows.len() && (#[trigger] rows[i]).is_folder && sub_key(rel, rows[i].href) == sub
}

/// The sizes of all files in a folder and below it, `depth` folders deep.
pub open spec fn tree_bytes(
    cache: Map<Seq<char>, CachedDir>,
    size: spec_fn(Seq<char>) -> u64,
    rel: Seq<char>,
    depth: nat,
) -> nat
    decreases depth, 0nat,
{
    if depth == 0 || !cache.contains_key(rel) {
        0
    } else {
        let rows = raws(cache[rel].entries@);
        file_bytes(rows, sizes_of(rows, size)) + trees_bytes(
            cache,
            size,
            rel,
            rows,
            (depth - 1) as nat,
        )
    }
}

/// The sizes of all files below the subfolders that the lines name.
pub open spec fn trees_bytes(
    cache: Map<Seq<char>, CachedDir>,
    size: spec_fn(Seq<char>) -> u64,
    rel: Seq<char>,
    rows: Seq<RawRow>,
    depth: nat,
) -> nat
    decreases depth, rows.len(),
{
    if rows.len() == 0 {
        0
    } else {
        trees_bytes(cache, size, rel, rows.drop_last(), depth) + if rows.last().is_folder {
            tree_bytes(cache, size, sub_key(rel, rows.last().href), depth)
        } else {
            0
        }
    }
}

proof fn lemma_sub_key(rel: Seq<char>, href: Seq<char>)
    ensures
        sub_key(rel, href).len() > rel.len(),
        sub_key(rel, href)[rel.len() as int] == '/',
{
    reveal_strlit("/");
}

proof fn lemma_below_same(
    a: Map<Seq<char>, CachedDir>,
    b: Map<Seq<char>, CachedDir>,
    rel: Seq<char>,
    rows: Seq<RawRow>,
)
    requires
        forall|i: int|
            0 <= i < rows.len() && (#[trigger] rows[i]).is_folder ==> known_total(
                a,
                sub_key(rel, rows[i].href),
            ) == known_total(b, sub_key(rel, rows[i].href)),
    ensures
        below_of(a, rel, rows) == below_of(b, rel, rows),
    decreases rows.len(),
{
    if rows.len() > 0 {
        let head = rows.drop_last();
        assert forall|i: int| 0 <= i < head.len() && (#[trigger] head[i]).is_folder implies known_total(
            a,
            sub_key(rel, head[i].href),
        ) == known_total(b, sub_key(rel, head[i].href)) by {
            assert(rows[i] == head[i]);
        }
        lemma_below_same(a, b, rel, head);
        assert(rows[rows.len() - 1] == rows.last());
    }
}

/// The crawl keeps the totals adding up, where a folder is crawled before the folders that list it:
/// so after any number of folders they still do. `dir` is what `store_crawled` puts into the cache.
pub proof fn law_crawl_adds_up(
    cache: Map<Seq<char>, CachedDir>,
    size: spec_fn(Seq<char>) -> u64,
    rel: Seq<char>,
    dir: CachedDir,
)
    requires
        all_add_up(cache, size),
        !cache.contains_key(rel),
        forall|p: Seq<char>| #[trigger]
            cache.contains_key(p) && p.len() > 0 ==> !lists(raws(cache[p].entries@), p, rel),
        dir.total_bytes as nat == crawled_total(
            cache,
            rel,
            raws(dir.entries@),
            sizes_of(raws(dir.entries@), size),
        ),
    ensures
        all_add_up(cache.insert(rel, dir), size),
{
    let after = cache.insert(rel, dir);
    assert forall|p: Seq<char>| #[trigger] after.contains_key(p) && p.len() > 0 implies adds_up(
        after,
        size,
        p,
    ) by {
        let rows = raws(after[p].entries@);
        if p != rel {
            assert(cache.contains_key(p));
            assert(adds_up(cache, size, p));
            assert(!lists(rows, p, rel));
        }
        assert forall|i: int| 0 <= i < rows.len() && (#[trigger] rows[i]).is_folder implies known_total(
            after,
            sub_key(p, rows[i].href),
        ) == known_total(cache, sub_key(p, rows[i].href)) by {
            lemma_sub_key(p, rows[i].href);
        }
        lemma_below_same(after, cache, p, rows);
    }
}

proof fn lemma_trees(
    cache: Map<Seq<char>, CachedDir>,
    size: spec_fn(Seq<char>) -> u64,
    rel: Seq<char>,
    rows: Seq<RawRow>,
    depth: nat,
)
    requires
        all_add_up(cache, size),
        forall|k: Seq<char>| #[trigger]
            cache.contains_key(k) ==> k.len() <= rel.len() + depth,
    ensures
        sum_of(below_of(cache, rel, rows)) == trees_bytes(cache, size, rel, rows, depth),
    decreases depth, rows.len(),
{
    if rows.len() > 0 {
        lemma_trees(cache, size, rel, rows.drop_last(), depth);
        if rows.last().is_folder {
            let sub = sub_key(rel, rows.last().href);
            lemma_sub_key(rel, rows.last().href);
            law_total_of_tree(cache, size, sub, depth);
            let head = below_of(cache, rel, rows.drop_last());
            assert(head.push(known_total(cache, sub)).drop_last() =~= head);
        }
    }
}

/// Where all totals in the cache add up, the total of a folder is the sum of the sizes of all files
/// in it and below it, as deep as the cache goes. A folder that the cache does not have counts as
/// nothing.
pub proof fn law_total_of_tree(
    cache: Map<Seq<char>, CachedDir>,
    size: spec_fn(Seq<char>) -> u64,
    rel: Seq<char>,
    depth: nat,
)
    requires
        all_add_up(cache, size),
        rel.len() > 0,
        forall|k: Seq<char>| #[trigger] cache.contains_key(k) ==> k.len() < rel.len() + depth,
    ensures
        known_total(cache, rel) as nat == tree_bytes(cache, size, rel, depth),
    decreases depth, 0nat,
{
    if cache.contains_key(rel) {
        assert(adds_up(cache, size, rel));
        let rows = raws(cache[rel].entries@);
        lemma_trees(cache, size, rel, rows, (depth - 1) as nat);
    }
}

// ── The cache, listing by listing ────────────────────────────────────────────
/// Puts a folder's listing into the cache; the bytes under it stay as they are known.
pub fn store_listing(cache: &mut StrMap<CachedDir>, rel: &str, entries: Vec<RawEntry>)
    requires
        old(cache).wf(),
    ensures
        final(cache).wf(),
        final(cache)@ == old(cache)@.insert(
            rel@,
            CachedDir {
                entries,
                total_bytes: if old(cache)@.contains_key(rel@) {
                    old(cache)@[rel@].total_bytes
                } else {
                    0
                },
            },
        ),
{
    let total_bytes: u64 = match cached_total(cache, rel) {
        Some(n) => n,
        None => 0,
    };
    store_dir(cache, rel, entries, total_bytes);
}

/// Puts the root's listing into the cache, unless it is there.
pub fn store_root(cache: &mut StrMap<CachedDir>, entries: Vec<RawEntry>)
    requires
        old(cache).wf(),
    ensures
        final(cache).wf(),
        final(cache)@ == if old(cache)@.contains_key(Seq::empty()) {
            old(cache)@
        } else {
            old(cache)@.insert(Seq::empty(), CachedDir { entries, total_bytes: 0 })
        },
{
    let root = String::new();
    assert(root@ =~= Seq::<char>::empty());
    if !cache.contains_key(root.as_str()) {
        cache.insert(root, CachedDir { entries, total_bytes: 0 });
    }
}

/// The folders of the cache, sorted by their keys.
pub fn sorted_paths(cache: &StrMap<CachedDir>) -> (paths: Vec<String>)
    requires
        cache.wf(),
    ensures
        sorted_texts(cache.pairs().map_values(|p: (Seq<char>, CachedDir)| p.0), texts(paths@)),
{
    let ghost pairs = cache.pairs();
    let n: usize = cache.len();
    let mut keys: Vec<String> = Vec::new();
    let mut i: usize = 0;
    while i < n
        invariant
            pairs == cache.pairs(),
            i <= n == pairs.len(),
            keys@.len() == i,
            forall|k: int| 0 <= k < i ==> (#[trigger] keys@[k])@ == pairs[k].0,
        decreases n - i,
    {
        keys.push(cache.key_at(i).clone());
        i = i + 1;
    }
    assert(texts(keys@) =~= pairs.map_values(|p: (Seq<char>, CachedDir)| p.0));
    sort_texts(keys)
}

// ── Refreshing ───────────────────────────────────────────────────────────────
/// The root's listing, as the cache has it.
pub open spec fn known_root(pairs: Seq<(Seq<char>, CachedDir)>) -> Seq<RawRow> {
    match place_of(pairs, Seq::empty()) {
        Some(i) => raws(pairs[i].1.entries@),
        None => Seq::empty(),
    }
}

/// The line is that of the folder `rel` of the root.
pub open spec fn is_line_of(row: RawRow, rel: Seq<char>) -> bool {
    row.is_folder && trim_end_of(row.href, '/') == rel
}

/// The date that a listing of the root gives of the folder `rel`: that of its first line, and no
/// text where it has none.
pub open spec fn date_in(root: Seq<RawRow>, rel: Seq<char>) -> Seq<char>
    decreases root.len(),
{
    if root.len() == 0 {
        Seq::empty()
    } else if is_line_of(root[0], rel) {
        root[0].date
    } else {
        date_in(root.skip(1), rel)
    }
}

/// The folder at `path` is `rel` or lies under it.
pub open spec fn lies_under(path: Seq<char>, rel: Seq<char>) -> bool {
    path == rel || (path.len() > rel.len() && path.take(rel.len() as int + 1) == rel + "/"@)
}

/// The pairs without the folder `rel` and all that lies under it.
pub open spec fn without_folder(
    pairs: Seq<(Seq<char>, CachedDir)>,
    rel: Seq<char>,
) -> Seq<(Seq<char>, CachedDir)>
    decreases pairs.len(),
{
    if pairs.len() == 0 {
        Seq::empty()
    } else {
        let head = without_folder(pairs.drop_last(), rel);
        if lies_under(pairs.last().0, rel) {
            head
        } else {
            head.push(pairs.last())
        }
    }
}

/// A folder that the cache has is stale where the server's line of it, `entry`, has another date
/// than the line in the known listing of the root.
pub open spec fn is_stale(
    pairs: Seq<(Seq<char>, CachedDir)>,
    known: Seq<RawRow>,
    entry: RawRow,
) -> bool {
    let rel = trim_end_of(entry.href, '/');
    entry.is_folder && place_of(pairs, rel) is Some && date_in(known, rel) != entry.date
}

/// The pairs after the root's lines were gone through in their order: a folder whose date changed
/// goes, with all that lies under it.
pub open spec fn refreshed(
    pairs: Seq<(Seq<char>, CachedDir)>,
    known: Seq<RawRow>,
    root: Seq<RawRow>,
) -> Seq<(Seq<char>, CachedDir)>
    decreases root.len(),
{
    if root.len() == 0 {
        pairs
    } else {
        let before = refreshed(pairs, known, root.drop_last());
        let e = root.last();
        if is_stale(before, known, e) {
            without_folder(before, trim_end_of(e.href, '/'))
        } else {
            before
        }
    }
}

fn is_under(path: &str, rel: &str) -> (yes: bool)
    ensures
        yes == lies_under(path@, rel@),
{
    let p = chars_of(path);
    let r = chars_of(rel);
    if p.len() < r.len() {
        return false;
    }
    let mut i: usize = 0;
    while i < r.len()
        invariant
            p@ == path@,
            r@ == rel@,
            r@.len() <= p@.len(),
            i <= r@.len(),
            forall|k: int| 0 <= k < i ==> p@[k] == #[trigger] r@[k],
        decreases r@.len() - i,
    {
        if p[i] != r[i] {
            proof {
                if p@.len() > r@.len() {
                    assert(path@.take(rel@.len() as int + 1)[i as int] == p@[i as int]);
                    assert((rel@ + "/"@)[i as int] == r@[i as int]);
                }
            }
            return false;
        }
        i = i + 1;
    }
    proof {
        reveal_strlit("/");
    }
    if p.len() == r.len() {
        assert(path@ =~= rel@);
        true
    } else {
        let ghost head = path@.take(rel@.len() as int + 1);
        let ghost want = rel@ + "/"@;
        if p[r.len()] == '/' {
            assert(head =~= want);
            true
        } else {
            assert(head[r@.len() as int] != want[r@.len() as int]);
            false
        }
    }
}

proof fn lemma_without_folder_distinct(pairs: Seq<(Seq<char>, CachedDir)>, rel: Seq<char>)
    requires
        distinct_keys(pairs),
    ensures
        distinct_keys(without_folder(pairs, rel)),
        without_folder(pairs, rel).len() <= pairs.len(),
        forall|i: int|
            0 <= i < without_folder(pairs, rel).len() ==> pairs.contains(
                #[trigger] without_folder(pairs, rel)[i],
            ),
    decreases pairs.len(),
{
    if pairs.len() > 0 {
        let head = pairs.drop_last();
        assert forall|i: int, j: int| 0 <= i < j < head.len() implies (#[trigger] head[i]).0 != (
        #[trigger] head[j]).0 by {
            assert(pairs[i].0 != pairs[j].0);
        }
        lemma_without_folder_distinct(head, rel);
        let before = without_folder(head, rel);
        let after = without_folder(pairs, rel);
        assert forall|i: int| 0 <= i < after.len() implies pairs.contains(#[trigger] after[i]) by {
            if i < before.len() {
                assert(after[i] == before[i]);
                let k = choose|k: int| 0 <= k < head.len() && head[k] == before[i];
                assert(pairs[k] == after[i]);
            } else {
                assert(pairs[pairs.len() - 1] == after[i]);
            }
        }
        assert forall|i: int, j: int| 0 <= i < j < after.len() implies (#[trigger] after[i]).0 != (
        #[trigger] after[j]).0 by {
            assert(after[i] == before[i]);
            if j < before.len() {
                assert(after[j] == before[j]);
                assert(before[i].0 != before[j].0);
            } else {
                let k = choose|k: int| 0 <= k < head.len() && head[k] == before[i];
                assert(pairs[k].0 != pairs[pairs.len() - 1].0);
            }
        }
    }
}

pub open spec fn entry_pairs(entries: Seq<(String, CachedDir)>) -> Seq<(Seq<char>, CachedDir)> {
    entries.map_values(|e: (String, CachedDir)| (e.0@, e.1))
}

/// The entries, the last one first.
fn turn_round(entries: Vec<(String, CachedDir)>) -> (turned: Vec<(String, CachedDir)>)
    ensures
        turned@ == entries@.reverse(),
{
    let mut rest = entries;
    let ghost all = rest@;
    let mut turned: Vec<(String, CachedDir)> = Vec::new();
    assert(all.take(all.len() as int) =~= all);
    while rest.len() > 0
        invariant
            rest@.len() <= all.len(),
            rest@ == all.take(rest@.len() as int),
            turned@ == all.skip(rest@.len() as int).reverse(),
        decreases rest@.len(),
    {
        let ghost n = rest@.len();
        match rest.pop() {
            Some(e) => {
                let ghost x = e;
                let ghost before = turned@;
                turned.push(e);
                proof {
                    assert(x == all[n - 1]);
                    assert(rest@ =~= all.take(n - 1));
                    assert(turned@ =~= before.push(x));
                    assert(all.skip(n - 1).reverse() =~= all.skip(n as int).reverse().push(x));
                }
            },
            None => {},
        }
    }
    assert(all.skip(0) =~= all);
    turned
}

/// Takes the folder `rel` and all that lies under it out of the cache. Returns the cache and how
/// many folders went.
pub fn drop_folder(cache: StrMap<CachedDir>, rel: &str) -> (out: (StrMap<CachedDir>, usize))
    requires
        cache.wf(),
    ensures
        out.0.wf(),
        out.0.pairs() == without_folder(cache.pairs(), rel@),
        out.1 == cache.pairs().len() - out.0.pairs().len(),
{
    let ghost all = cache.pairs();
    proof {
        cache.lemma_pairs();
    }
    let entries = cache.into_entries();
    let ghost e0 = entries@;
    assert(entry_pairs(e0) == all);
    let mut rest = turn_round(entries);
    let size: usize = rest.len();
    let mut kept: StrMap<CachedDir> = StrMap::new();
    let mut gone: usize = 0;
    let ghost mut n: int = 0;
    assert(all.take(0) =~= Seq::<(Seq<char>, CachedDir)>::empty());
    assert(e0.skip(0) =~= e0);
    while rest.len() > 0
        invariant
            all == entry_pairs(e0),
            distinct_keys(all),
            0 <= n <= all.len(),
            rest@ == e0.skip(n).reverse(),
            kept.wf(),
            kept.pairs() == without_folder(all.take(n), rel@),
            gone == n - kept.pairs().len(),
            n + rest@.len() == all.len(),
            size == all.len(),
        decreases rest@.len(),
    {
        let ghost before = rest@;
        match rest.pop() {
            Some((key, dir)) => {
                proof {
                    assert(before.last() == e0.skip(n)[0]);
                    assert(e0[n] == (key, dir));
                    assert(all[n] == (key@, dir));
                    assert(rest@ =~= e0.skip(n + 1).reverse());
                    assert(all.take(n + 1).drop_last() =~= all.take(n));
                    assert(all.take(n + 1).last() == all[n]);
                    assert(distinct_keys(all.take(n))) by {
                        assert forall|i: int, j: int| 0 <= i < j < n implies (#[trigger] all.take(
                            n,
                        )[i]).0 != (#[trigger] all.take(n)[j]).0 by {
                            assert(all[i].0 != all[j].0);
                        }
                    }
                    lemma_without_folder_distinct(all.take(n), rel@);
                    lemma_place_of(kept.pairs(), key@);
                    if let Some(p) = place_of(kept.pairs(), key@) {
                        assert(all.take(n).contains(kept.pairs()[p]));
                        let k = choose|k: int|
                            0 <= k < all.take(n).len() && all.take(n)[k] == kept.pairs()[p];
                        assert(all[k].0 != all[n].0);
                    }
                }
                if is_under(key.as_str(), rel) {
                    gone = gone + 1;
                } else {
                    kept.insert(key, dir);
                }
                proof {
                    n = n + 1;
                }
            },
            None => {},
        }
    }
    assert(all.take(n) =~= all);
    (kept, gone)
}

fn known_date(known: &Vec<RawEntry>, rel: &str) -> (date: String)
    ensures
        date@ == date_in(raws(known@), rel@),
{
    let ghost rows = raws(known@);
    let mut i: usize = 0;
    assert(rows.skip(0) =~= rows);
    while i < known.len()
        invariant
            rows == raws(known@),
            i <= known@.len(),
            date_in(rows, rel@) == date_in(rows.skip(i as int), rel@),
        decreases known@.len() - i,
    {
        let e = &known[i];
        assert(rows.skip(i as int)[0] == e@);
        assert(rows.skip(i as int).skip(1) =~= rows.skip(i + 1));
        if e.is_folder {
            let own = trim_end_slashes(e.href.as_str());
            if same_text(own.as_str(), rel) {
                return e.date.clone();
            }
        }
        i = i + 1;
    }
    let date = String::new();
    assert(date@ =~= Seq::<char>::empty());
    date
}

/// Which of the root's lines are of folders whose date is not the known one.
fn changed_lines(cache: &StrMap<CachedDir>, root: &Vec<RawEntry>) -> (changed: Vec<bool>)
    requires
        cache.wf(),
    ensures
        changed@.len() == root@.len(),
        forall|i: int|
            0 <= i < root@.len() ==> #[trigger] changed@[i] == (root@[i]@.is_folder && date_in(
                known_root(cache.pairs()),
                trim_end_of(root@[i]@.href, '/'),
            ) != root@[i]@.date),
{
    let ghost pairs = cache.pairs();
    let ghost known = known_root(pairs);
    let none: Vec<RawEntry> = Vec::new();
    let key = String::new();
    proof {
        assert(key@ =~= Seq::<char>::empty());
        assert(raws(none@) =~= Seq::<RawRow>::empty());
        cache.lemma_pairs();
        lemma_place_of(pairs, key@);
    }
    let lines: &Vec<RawEntry> = match cache.get(key.as_str()) {
        Some(dir) => {
            proof {
                let p = choose|p: int| 0 <= p < pairs.len() && (#[trigger] pairs[p]).0 == key@;
                assert(pairs[p].0 == key@);
            }
            &dir.entries
        },
        None => {
            proof {
                if let Some(p) = place_of(pairs, key@) {
                    assert(pairs[p].0 == key@);
                }
            }
            &none
        },
    };
    assert(raws(lines@) == known);
    let mut changed: Vec<bool> = Vec::new();
    let mut i: usize = 0;
    while i < root.len()
        invariant
            raws(lines@) == known,
            i <= root@.len(),
            changed@.len() == i,
            forall|k: int|
                0 <= k < i ==> #[trigger] changed@[k] == (root@[k]@.is_folder && date_in(
                    known,
                    trim_end_of(root@[k]@.href, '/'),
                ) != root@[k]@.date),
        decreases root@.len() - i,
    {
        let e = &root[i];
        let rel = trim_end_slashes(e.href.as_str());
        let date = known_date(lines, rel.as_str());
        changed.push(e.is_folder && !same_text(date.as_str(), e.date.as_str()));
        i = i + 1;
    }
    changed
}

/// Goes through the root's listing as the server has it: takes the folders whose date is not the
/// one in the cached root listing out of the cache, with all that lies under them, and keeps the
/// listing as the root's. Returns the cache and how many folders went.
pub fn refresh(cache: StrMap<CachedDir>, root: Vec<RawEntry>) -> (out: (StrMap<CachedDir>, usize))
    requires
        cache.wf(),
    ensures
        out.0.wf(),
        out.0.pairs() == with_pair(
            refreshed(cache.pairs(), known_root(cache.pairs()), raws(root@)),
            Seq::empty(),
            CachedDir { entries: root, total_bytes: 0 },
        ),
        out.1 == cache.pairs().len() - refreshed(
            cache.pairs(),
            known_root(cache.pairs()),
            raws(root@),
        ).len(),
{
    let ghost start = cache.pairs();
    let ghost known = known_root(start);
    let ghost lines = raws(root@);
    let size: usize = cache.len();
    let changed = changed_lines(&cache, &root);
    let mut current = cache;
    let mut gone: usize = 0;
    let mut i: usize = 0;
    assert(lines.take(0) =~= Seq::<RawRow>::empty());
    while i < root.len()
        invariant
            lines == raws(root@),
            i <= root@.len(),
            changed@.len() == root@.len(),
            forall|k: int|
                0 <= k < root@.len() ==> #[trigger] changed@[k] == (root@[k]@.is_folder && date_in(
                    known,
                    trim_end_of(root@[k]@.href, '/'),
                ) != root@[k]@.date),
            current.wf(),
            current.pairs() == refreshed(start, known, lines.take(i as int)),
            gone == start.len() - current.pairs().len(),
            size == start.len(),
        decreases root@.len() - i,
    {
        let e = &root[i];
        let ghost pairs = current.pairs();
        proof {
            assert(lines.take(i + 1).drop_last() =~= lines.take(i as int));
            assert(lines.take(i + 1).last() == e@);
        }
        if changed[i] {
            let rel = trim_end_slashes(e.href.as_str());
            proof {
                current.lemma_pairs();
                lemma_place_of(pairs, rel@);
                if let Some(p) = place_of(pairs, rel@) {
                    assert(pairs[p].0 == rel@);
                }
            }
            if current.contains_key(rel.as_str()) {
                proof {
                    let p = choose|p: int| 0 <= p < pairs.len() && (#[trigger] pairs[p]).0 == rel@;
                    assert(pairs[p].0 == rel@);
                    assert(is_stale(pairs, known, e@));
                }
                let (next, n) = drop_folder(current, rel.as_str());
                current = next;
                gone = gone + n;
            }
        }
        i = i + 1;
    }
    assert(lines.take(root@.len() as int) =~= lines);
    let key = String::new();
    assert(key@ =~= Seq::<char>::empty());
    current.insert(key, CachedDir { entries: root, total_bytes: 0 });
    (current, gone)
}

proof fn lemma_without_folder(pairs: Seq<(Seq<char>, CachedDir)>, rel: Seq<char>)
    ensures
        forall|i: int|
            0 <= i < without_folder(pairs, rel).len() ==> pairs.contains(
                #[trigger] without_folder(pairs, rel)[i],
            ) && !lies_under(without_folder(pairs, rel)[i].0, rel),
        forall|i: int|
            0 <= i < pairs.len() && !lies_under((#[trigger] pairs[i]).0, rel) ==> without_folder(
                pairs,
                rel,
            ).contains(pairs[i]),
    decreases pairs.len(),
{
    if pairs.len() > 0 {
        let head = pairs.drop_last();
        lemma_without_folder(head, rel);
        let before = without_folder(head, rel);
        let after = without_folder(pairs, rel);
        assert forall|i: int| 0 <= i < after.len() implies pairs.contains(#[trigger] after[i])
            && !lies_under(after[i].0, rel) by {
            if i < before.len() {
                assert(after[i] == before[i]);
                let k = choose|k: int| 0 <= k < head.len() && head[k] == before[i];
                assert(pairs[k] == after[i]);
            } else {
                assert(pairs[pairs.len() - 1] == after[i]);
            }
        }
        assert forall|i: int|
            0 <= i < pairs.len() && !lies_under(
                (#[trigger] pairs[i]).0,
                rel,
            ) implies after.contains(pairs[i]) by {
            if i < head.len() {
                assert(head[i] == pairs[i]);
                let k = choose|k: int| 0 <= k < before.len() && before[k] == pairs[i];
                assert(after[k] == pairs[i]);
            } else {
                assert(after[before.len() as int] == pairs[i]);
            }
        }
    }
}

/// Taking a folder out takes it and all that lies under it out, and nothing else.
pub proof fn law_drop_folder(pairs: Seq<(Seq<char>, CachedDir)>, rel: Seq<char>)
    ensures
        forall|p: (Seq<char>, CachedDir)| #[trigger]
            without_folder(pairs, rel).contains(p) <==> pairs.contains(p) && !lies_under(p.0, rel),
{
    lemma_without_folder(pairs, rel);
    let after = without_folder(pairs, rel);
    assert forall|p: (Seq<char>, CachedDir)| #[trigger] after.contains(p) <==> pairs.contains(p)
        && !lies_under(p.0, rel) by {
        if after.contains(p) {
            let i = choose|i: int| 0 <= i < after.len() && after[i] == p;
            assert(after[i] == p);
        }
        if pairs.contains(p) && !lies_under(p.0, rel) {
            let i = choose|i: int| 0 <= i < pairs.len() && pairs[i] == p;
            assert(pairs[i] == p);
        }
    }
}

proof fn lemma_under_under(path: Seq<char>, mid: Seq<char>, rel: Seq<char>)
    requires
        lies_under(path, mid),
        lies_under(mid, rel),
    ensures
        lies_under(path, rel),
{
    reveal_strlit("/");
    if path != mid && mid != rel {
        let n = rel.len() as int + 1;
        assert forall|i: int| 0 <= i < n implies path.take(n)[i] == (rel + "/"@)[i] by {
            assert(path.take(mid.len() as int + 1)[i] == (mid + "/"@)[i]);
            assert(mid.take(n)[i] == (rel + "/"@)[i]);
        }
        assert(path.take(n) =~= rel + "/"@);
    }
}

/// The folder at `path` lies under one of the root's folders whose date changed.
pub open spec fn under_stale(
    pairs: Seq<(Seq<char>, CachedDir)>,
    known: Seq<RawRow>,
    root: Seq<RawRow>,
    path: Seq<char>,
) -> bool {
    exists|i: int|
        0 <= i < root.len() && is_stale(pairs, known, #[trigger] root[i]) && lies_under(
            path,
            trim_end_of(root[i].href, '/'),
        )
}

/// Refreshing takes out the folders whose date changed and all that lies under them, and keeps
/// every other folder as it is.
pub proof fn law_refresh_drops(
    pairs: Seq<(Seq<char>, CachedDir)>,
    known: Seq<RawRow>,
    root: Seq<RawRow>,
)
    ensures
        forall|p: (Seq<char>, CachedDir)| #[trigger]
            refreshed(pairs, known, root).contains(p) <==> pairs.contains(p) && !under_stale(
                pairs,
                known,
                root,
                p.0,
            ),
    decreases root.len(),
{
    if root.len() > 0 {
        let head = root.drop_last();
        let e = root.last();
        let rel = trim_end_of(e.href, '/');
        law_refresh_drops(pairs, known, head);
        let before = refreshed(pairs, known, head);
        law_drop_folder(before, rel);
        lemma_place_of(before, rel);
        lemma_place_of(pairs, rel);
        let after = refreshed(pairs, known, root);
        assert forall|p: (Seq<char>, CachedDir)| #[trigger] after.contains(p) <==> pairs.contains(p)
            && !under_stale(pairs, known, root, p.0) by {
            assert(before.contains(p) <==> pairs.contains(p) && !under_stale(
                pairs,
                known,
                head,
                p.0,
            ));
            if under_stale(pairs, known, head, p.0) {
                let i = choose|i: int|
                    0 <= i < head.len() && is_stale(pairs, known, #[trigger] head[i])
                        && lies_under(p.0, trim_end_of(head[i].href, '/'));
                assert(root[i] == head[i]);
            }
            if under_stale(pairs, known, root, p.0) && !under_stale(pairs, known, head, p.0) {
                let i = choose|i: int|
                    0 <= i < root.len() && is_stale(pairs, known, #[trigger] root[i])
                        && lies_under(p.0, trim_end_of(root[i].href, '/'));
                if i < head.len() {
                    assert(head[i] == root[i]);
                }
                assert(root[i] == e);
                let k = place_of(pairs, rel)->0;
                if !before.contains(pairs[k]) {
                    assert(pairs.contains(pairs[k]));
                    assert(under_stale(pairs, known, head, rel));
                    let j = choose|j: int|
                        0 <= j < head.len() && is_stale(pairs, known, #[trigger] head[j])
                            && lies_under(rel, trim_end_of(head[j].href, '/'));
                    lemma_under_under(p.0, rel, trim_end_of(head[j].href, '/'));
                    assert(under_stale(pairs, known, head, p.0));
                }
            }
            if is_stale(before, known, e) {
                let k = place_of(before, rel)->0;
                assert(before.contains(before[k]));
                assert(pairs.contains(before[k]));
                assert(is_stale(pairs, known, e));
                if lies_under(p.0, rel) {
                    assert(root[root.len() - 1] == e);
                    assert(under_stale(pairs, known, root, p.0));
                }
            }
        }
    }
}

/// Where no folder's date changed, the cache keeps all its folders.
pub proof fn law_refresh_keeps(
    pairs: Seq<(Seq<char>, CachedDir)>,
    known: Seq<RawRow>,
    root: Seq<RawRow>,
)
    requires
        forall|i: int| 0 <= i < root.len() ==> !is_stale(pairs, known, #[trigger] root[i]),
    ensures
        refreshed(pairs, known, root) == pairs,
    decreases root.len(),
{
    if root.len() > 0 {
        let head = root.drop_last();
        assert forall|i: int| 0 <= i < head.len() implies !is_stale(
            pairs,
            known,
            #[trigger] head[i],
        ) by {
            assert(root[i] == head[i]);
        }
        law_refresh_keeps(pairs, known, head);
        assert(!is_stale(pairs, known, root[root.len() - 1]));
    }
}

/// No two lines give one folder of the root different dates.
pub open spec fn one_date_each(root: Seq<RawRow>) -> bool {
    forall|i: int, j: int|
        0 <= i < root.len() && 0 <= j < root.len() && (#[trigger] root[i]).is_folder && (
        #[trigger] root[j]).is_folder && trim_end_of(root[i].href, '/') == trim_end_of(
            root[j].href,
            '/',
        ) ==> root[i].date == root[j].date
}

proof fn lemma_date_in(root: Seq<RawRow>, i: int)
    requires
        one_date_each(root),
        0 <= i < root.len(),
        root[i].is_folder,
    ensures
        date_in(root, trim_end_of(root[i].href, '/')) == root[i].date,
    decreases root.len(),
{
    let rel = trim_end_of(root[i].href, '/');
    if is_line_of(root[0], rel) {
        assert(root[0].date == root[i].date);
    } else {
        let rest = root.skip(1);
        assert(one_date_each(rest)) by {
            assert forall|j: int, k: int|
                0 <= j < rest.len() && 0 <= k < rest.len() && (#[trigger] rest[j]).is_folder && (
                #[trigger] rest[k]).is_folder && trim_end_of(rest[j].href, '/') == trim_end_of(
                    rest[k].href,
                    '/',
                ) implies rest[j].date == rest[k].date by {
                assert(root[j + 1] == rest[j]);
                assert(root[k + 1] == rest[k]);
            }
        }
        assert(rest[i - 1] == root[i]);
        lemma_date_in(rest, i - 1);
    }
}

/// Refreshing a second time against the same listing of the root takes nothing out.
pub proof fn law_refresh_settles(pairs: Seq<(Seq<char>, CachedDir)>, dir: CachedDir)
    requires
        one_date_each(raws(dir.entries@)),
    ensures
        ({
            let root = raws(dir.entries@);
            let once = with_pair(refreshed(pairs, known_root(pairs), root), Seq::empty(), dir);
            known_root(once) == root && refreshed(once, known_root(once), root) == once
        }),
{
    let root = raws(dir.entries@);
    let kept = refreshed(pairs, known_root(pairs), root);
    let once = with_pair(kept, Seq::empty(), dir);
    let key = Seq::<char>::empty();
    lemma_place_of(kept, key);
    lemma_place_of(once, key);
    match place_of(kept, key) {
        Some(i) => {
            assert(once[i] == (key, dir));
            let p = place_of(once, key)->0;
            if p < i {
                assert(kept[p] == once[p]);
            }
        },
        None => {
            assert(once[kept.len() as int] == (key, dir));
            let p = place_of(once, key)->0;
            if p < kept.len() {
                assert(kept[p] == once[p]);
            }
        },
    }
    assert forall|i: int| 0 <= i < root.len() implies !is_stale(once, root, #[trigger] root[i]) by {
        if root[i].is_folder {
            lemma_date_in(root, i);
        }
    }
    law_refresh_keeps(once, root, root);
}

proof fn lemma_under_parent(p: Seq<char>, href: Seq<char>, rel: Seq<char>)
    requires
        !rel.contains('/'),
        lies_under(sub_key(p, href), rel),
    ensures
        lies_under(p, rel),
{
    reveal_strlit("/");
    let sub = sub_key(p, href);
    lemma_sub_key(p, href);
    if p.len() < rel.len() {
        if sub != rel {
            assert(sub.take(rel.len() as int + 1)[p.len() as int] == (rel + "/"@)[p.len() as int]);
        }
        assert(rel[p.len() as int] == '/');
        assert(rel.contains('/'));
    } else {
        assert forall|i: int| 0 <= i < rel.len() implies p[i] == rel[i] by {
            assert(sub.take(rel.len() as int + 1)[i] == (rel + "/"@)[i]);
        }
        if p.len() == rel.len() {
            assert(p =~= rel);
        } else {
            let n = rel.len() as int;
            assert(sub.take(n + 1)[n] == (rel + "/"@)[n]);
            assert(p.take(n + 1) =~= rel + "/"@);
        }
    }
}

proof fn lemma_refreshed_distinct(
    pairs: Seq<(Seq<char>, CachedDir)>,
    known: Seq<RawRow>,
    root: Seq<RawRow>,
)
    requires
        distinct_keys(pairs),
    ensures
        distinct_keys(refreshed(pairs, known, root)),
    decreases root.len(),
{
    if root.len() > 0 {
        lemma_refreshed_distinct(pairs, known, root.drop_last());
        lemma_without_folder_distinct(
            refreshed(pairs, known, root.drop_last()),
            trim_end_of(root.last().href, '/'),
        );
    }
}

/// Refreshing keeps the totals adding up, where the root's folders have plain names: a folder goes
/// with all that counts towards its total, and none of it counts elsewhere.
pub proof fn law_refresh_adds_up(
    pairs: Seq<(Seq<char>, CachedDir)>,
    size: spec_fn(Seq<char>) -> u64,
    dir: CachedDir,
)
    requires
        distinct_keys(pairs),
        all_add_up(map_of(pairs), size),
        forall|i: int|
            0 <= i < dir.entries@.len() && (#[trigger] raws(dir.entries@)[i]).is_folder
                ==> !trim_end_of(raws(dir.entries@)[i].href, '/').contains('/'),
    ensures
        all_add_up(
            map_of(
                with_pair(
                    refreshed(pairs, known_root(pairs), raws(dir.entries@)),
                    Seq::empty(),
                    dir,
                ),
            ),
            size,
        ),
{
    let root = raws(dir.entries@);
    let known = known_root(pairs);
    let kept = refreshed(pairs, known, root);
    let key = Seq::<char>::empty();
    let last = with_pair(kept, key, dir);
    lemma_refreshed_distinct(pairs, known, root);
    law_refresh_drops(pairs, known, root);
    lemma_place_of(kept, key);
    assert(distinct_keys(last));
    lemma_map_of(pairs);
    lemma_map_of(last);
    let before = map_of(pairs);
    let after = map_of(last);
    assert forall|k: Seq<char>| k.len() > 0 implies (#[trigger] after.contains_key(k) <==> (
    before.contains_key(k) && !under_stale(pairs, known, root, k))) && (after.contains_key(k)
        ==> after[k] == before[k]) by {
        if after.contains_key(k) {
            let i = choose|i: int| 0 <= i < last.len() && (#[trigger] last[i]).0 == k;
            assert(kept[i] == last[i]);
            assert(kept.contains(kept[i]));
            let j = choose|j: int| 0 <= j < pairs.len() && pairs[j] == kept[i];
            assert(pairs[j].0 == k);
        }
        if before.contains_key(k) && !under_stale(pairs, known, root, k) {
            let j = choose|j: int| 0 <= j < pairs.len() && (#[trigger] pairs[j]).0 == k;
            assert(pairs.contains(pairs[j]));
            assert(kept.contains(pairs[j]));
            let i = choose|i: int| 0 <= i < kept.len() && kept[i] == pairs[j];
            assert(last[i].0 == k);
        }
    }
    assert forall|p: Seq<char>| #[trigger] after.contains_key(p) && p.len() > 0 implies adds_up(
        after,
        size,
        p,
    ) by {
        let rows = raws(after[p].entries@);
        assert(before.contains_key(p));
        assert(adds_up(before, size, p));
        assert forall|i: int| 0 <= i < rows.len() && (#[trigger] rows[i]).is_folder implies known_total(
            after,
            sub_key(p, rows[i].href),
        ) == known_total(before, sub_key(p, rows[i].href)) by {
            let sub = sub_key(p, rows[i].href);
            lemma_sub_key(p, rows[i].href);
            assert(after.contains_key(sub) <==> (before.contains_key(sub) && !under_stale(
                pairs,
                known,
                root,
                sub,
            )));
            if under_stale(pairs, known, root, sub) {
                let g = choose|g: int|
                    0 <= g < root.len() && is_stale(pairs, known, #[trigger] root[g]) && lies_under(
                        sub,
                        trim_end_of(root[g].href, '/'),
                    );
                lemma_under_parent(p, rows[i].href, trim_end_of(root[g].href, '/'));
                assert(under_stale(pairs, known, root, p));
            }
        }
        lemma_below_same(after, before, p, rows);
    }
}

// ── What the crawl goes by ───────────────────────────────────────────────────
/// Numbers are added up one by one.
pub proof fn law_sum(list: Seq<u64>, n: u64)
    ensures
        sum_of(Seq::empty()) == 0,
        sum_of(list.push(n)) == sum_of(list) + n,
{
    assert(list.push(n).drop_last() =~= list);
}

/// What the cache has of the subfolders of a folder, line by line: the total of a folder that it
/// has, and nothing for one that it does not have. A file's line adds none.
pub proof fn law_below(
    cache: Map<Seq<char>, CachedDir>,
    rel: Seq<char>,
    rows: Seq<RawRow>,
    row: RawRow,
)
    ensures
        below_of(cache, rel, Seq::empty()) == Seq::<u64>::empty(),
        ({
            let sub = rel + "/"@ + trim_end_of(row.href, '/');
            &&& !row.is_folder ==> below_of(cache, rel, rows.push(row)) == below_of(
                cache,
                rel,
                rows,
            )
            &&& row.is_folder && cache.contains_key(sub) ==> below_of(cache, rel, rows.push(row))
                == below_of(cache, rel, rows).push(cache[sub].total_bytes)
            &&& row.is_folder && !cache.contains_key(sub) ==> below_of(cache, rel, rows.push(row))
                == below_of(cache, rel, rows).push(0)
        }),
{
    assert(rows.push(row).drop_last() =~= rows);
}

/// The bytes in a folder and below it, line by line: a file adds its size, a folder all that is
/// below it, and what the cache does not have adds nothing.
pub proof fn law_tree_bytes(
    cache: Map<Seq<char>, CachedDir>,
    size: spec_fn(Seq<char>) -> u64,
    rel: Seq<char>,
    rows: Seq<RawRow>,
    row: RawRow,
    depth: nat,
)
    ensures
        !cache.contains_key(rel) ==> tree_bytes(cache, size, rel, depth) == 0,
        cache.contains_key(rel) ==> tree_bytes(cache, size, rel, depth + 1) == file_bytes(
            raws(cache[rel].entries@),
            sizes_of(raws(cache[rel].entries@), size),
        ) + trees_bytes(cache, size, rel, raws(cache[rel].entries@), depth),
        trees_bytes(cache, size, rel, Seq::empty(), depth) == 0,
        trees_bytes(cache, size, rel, rows.push(row), depth) == trees_bytes(
            cache,
            size,
            rel,
            rows,
            depth,
        ) + (if row.is_folder {
            tree_bytes(cache, size, rel + "/"@ + trim_end_of(row.href, '/'), depth)
        } else {
            0
        }),
{
    assert(rows.push(row).drop_last() =~= rows);
}

/// A folder lies under another where its path is the other's, or goes on from there after a slash.
pub proof fn law_lies_under(path: Seq<char>, rel: Seq<char>, rest: Seq<char>)
    ensures
        lies_under(rel, rel),
        lies_under(rel.push('/') + rest, rel),
        lies_under(path, rel) && path != rel ==> path == rel.push('/') + path.skip(
            rel.len() as int + 1,
        ),
{
    reveal_strlit("/");
    let below = rel.push('/') + rest;
    assert(below.take(rel.len() as int + 1) =~= rel + "/"@);
    if lies_under(path, rel) && path != rel {
        let n = rel.len() as int + 1;
        let rebuilt = rel.push('/') + path.skip(n);
        assert(path.take(n) == rel + "/"@);
        assert forall|i: int| 0 <= i < path.len() implies path[i] == rebuilt[i] by {
            if i < n {
                assert(path.take(n)[i] == (rel + "/"@)[i]);
            }
        }
        assert(path =~= rebuilt);
    }
}

/// The date that a listing of the root gives of a folder is that of the first line of the folder.
pub proof fn law_date_in(root: Seq<RawRow>, rel: Seq<char>, i: int)
    ensures
        0 <= i < root.len() && root[i].is_folder && trim_end_of(root[i].href, '/') == rel && (forall|
            k: int,
        |
            0 <= k < i ==> !((#[trigger] root[k]).is_folder && trim_end_of(root[k].href, '/')
                == rel)) ==> date_in(root, rel) == root[i].date,
        (forall|k: int|
            0 <= k < root.len() ==> !((#[trigger] root[k]).is_folder && trim_end_of(
                root[k].href,
                '/',
            ) == rel)) ==> date_in(root, rel).len() == 0,
    decreases root.len(),
{
    if root.len() > 0 {
        let rest = root.skip(1);
        law_date_in(rest, rel, i - 1);
        assert forall|k: int| 0 <= k < rest.len() implies #[trigger] rest[k] == root[k + 1] by {}
    }
}

/// A folder is stale where the cache has it and the server's date of it is another than the one in
/// the root listing that the cache has.
pub proof fn law_stale(
    pairs: Seq<(Seq<char>, CachedDir)>,
    known: Seq<RawRow>,
    entry: RawRow,
    i: int,
)
    ensures
        !entry.is_folder ==> !is_stale(pairs, known, entry),
        entry.is_folder && 0 <= i < pairs.len() && pairs[i].0 == trim_end_of(entry.href, '/') ==> (
        is_stale(pairs, known, entry) <==> date_in(known, trim_end_of(entry.href, '/'))
            != entry.date),
        (forall|k: int|
            0 <= k < pairs.len() ==> (#[trigger] pairs[k]).0 != trim_end_of(entry.href, '/'))
            ==> !is_stale(pairs, known, entry),
        distinct_keys(pairs) && 0 <= i < pairs.len() && pairs[i].0.len() == 0 ==> known_root(pairs)
            == raws(pairs[i].1.entries@),
        (forall|k: int| 0 <= k < pairs.len() ==> (#[trigger] pairs[k]).0.len() > 0) ==> known_root(
            pairs,
        ).len() == 0,
{
    lemma_place_of(pairs, trim_end_of(entry.href, '/'));
    lemma_place_of(pairs, Seq::empty());
    if distinct_keys(pairs) && 0 <= i < pairs.len() && pairs[i].0.len() == 0 {
        assert(pairs[i].0 =~= Seq::<char>::empty());
        let p = place_of(pairs, Seq::empty())->0;
        assert(pairs[p].0 == pairs[i].0);
    }
}

} // verus!
