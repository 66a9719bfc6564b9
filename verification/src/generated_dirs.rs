//! The local directory index: the listing of every folder that was ever seen.
//!
//! On first run the index is seeded from the data that ships with the program. From then on the
//! local file is what counts: a folder that was fetched from the server is put into it, so that
//! the next look-up needs no request.

use crate::block::{
    block_bytes, block_count, block_rows, encode_block, fits_block, law_block_round_trip,
    law_lines_come_back, parse_block, rows, storable, stored, DirEntry, DirRow,
};
use crate::index::{
    assemble_dirs, block_at, block_of, dirs_file, folders_fit, folders_view, index_map,
    index_order, index_pairs, law_index_round_trip, lemma_index_order, parse_index, paths_fit,
    FolderBlock, IndexRecord, StoredFolder,
};
use crate::outside::{has_magic, zstd_decode, zstd_decoded, zstd_encode};
use crate::sort::{
    keys_view, lemma_text_order, positions, precedes, sort_by_key, stable_order, text_before,
    SortKey,
};
use crate::strmap::{distinct_keys, lemma_map_of, map_of, StrMap};
use crate::text::{
    has_char, last_index_of, law_last_index, law_segments, law_trim_slashes, non_empty, same_text,
    segments, split_on, texts, trim_slashes, trim_slashes_of,
};
use vstd::prelude::*;
use vstd::utf8::encode_utf8;

verus! {

/// The index in memory: the bytes of the file, and what its records say.
pub struct LocalIndex {
    data: Vec<u8>,
    map: StrMap<IndexRecord>,
}

impl View for LocalIndex {
    type V = Seq<u8>;

    /// The bytes of the file.
    closed spec fn view(&self) -> Seq<u8> {
        self.data@
    }
}

impl LocalIndex {
    /// The folders with their records, in the order in which they are walked.
    pub closed spec fn pairs(&self) -> Seq<(Seq<char>, IndexRecord)> {
        self.map.pairs()
    }

    /// The map holds what the bytes say.
    pub closed spec fn wf(&self) -> bool {
        &&& self.map.wf()
        &&& self.map@ == index_map(self.data@)
        &&& self.map.pairs() == index_order(self.data@)
    }

    /// The folders are those of the file.
    pub proof fn lemma_pairs(&self)
        requires
            self.wf(),
        ensures
            self.pairs() == index_order(self@),
    {
    }

    /// The index that the bytes of a file hold: an empty one where they cannot be read.
    pub fn load(data: Vec<u8>) -> (index: Self)
        ensures
            index.wf(),
            index@ == data@,
    {
        let map = match parse_index(data.as_slice()) {
            Some(m) => m,
            None => StrMap::new(),
        };
        LocalIndex { data, map }
    }

    /// The bytes of the file.
    pub fn bytes(&self) -> (data: &Vec<u8>)
        ensures
            data@ == self@,
    {
        &self.data
    }
}

/// The local file is to be written from the data that ships with the program: there is none, or
/// nothing in it, and there is something to write.
pub open spec fn needs_seed(local_len: Option<u64>, embedded_len: nat) -> bool {
    (match local_len {
        Some(n) => n <= 1,
        None => true,
    }) && embedded_len > 1
}

// ── Start ────────────────────────────────────────────────────────────────────
/// Whether the local file is to be written from the data that ships with the program: it is
/// missing or next to empty, and there is data. `local_len` is its length, where it has one.
pub fn must_seed(local_len: Option<u64>, embedded_len: usize) -> (seed: bool)
    ensures
        seed == needs_seed(local_len, embedded_len as nat),
{
    let poor: bool = match local_len {
        Some(n) => n <= 1,
        None => true,
    };
    poor && embedded_len > 1
}

/// The index at startup: what was read from the local file, or the data that ships with the
/// program where reading failed.
pub fn init(local: Option<Vec<u8>>, embedded: &Vec<u8>) -> (index: LocalIndex)
    ensures
        index.wf(),
        index@ == match local {
            Some(data) => data@,
            None => embedded@,
        },
{
    match local {
        Some(data) => LocalIndex::load(data),
        None => {
            let mut data: Vec<u8> = Vec::new();
            data.extend_from_slice(embedded.as_slice());
            assert(data@ =~= embedded@);
            LocalIndex::load(data)
        },
    }
}

// ── Look-up ──────────────────────────────────────────────────────────────────
/// The listing in the block that a record points at.
pub open spec fn listing_at(data: Seq<u8>, record: IndexRecord) -> Option<Seq<DirRow>> {
    match block_at(data, record.offset as nat, record.clen as nat) {
        Some(packed) => match zstd_decoded(packed) {
            Some(raw) => block_rows(raw),
            None => None,
        },
        None => None,
    }
}

/// The listing of a folder, as the index file holds it.
pub open spec fn looked_up(data: Seq<u8>, path: Seq<char>) -> Option<Seq<DirRow>> {
    let key = trim_slashes_of(path);
    if index_map(data).contains_key(key) {
        listing_at(data, index_map(data)[key])
    } else {
        None
    }
}

/// Reads the listing in the block that a record points at.
fn read_listing(data: &Vec<u8>, record: IndexRecord) -> (listing: Option<Vec<DirEntry>>)
    ensures
        match listing {
            Some(list) => listing_at(data@, record) == Some(rows(list@)),
            None => listing_at(data@, record) is None,
        },
{
    match block_of(data, record) {
        Some(packed) => match zstd_decode(packed) {
            Some(raw) => parse_block(raw.as_slice()),
            None => None,
        },
        None => None,
    }
}

/// The entries of a folder; `None` where the index does not know it.
pub fn lookup(index: &LocalIndex, path: &str) -> (listing: Option<Vec<DirEntry>>)
    requires
        index.wf(),
    ensures
        match listing {
            Some(list) => looked_up(index@, path@) == Some(rows(list@)),
            None => looked_up(index@, path@) is None,
        },
{
    let key = trim_slashes(path);
    match index.map.get(key.as_str()) {
        Some(record) => read_listing(&index.data, *record),
        None => None,
    }
}

impl LocalIndex {
    /// The path of folder number `i`.
    pub fn path_at(&self, i: usize) -> (path: &String)
        requires
            i < self.pairs().len(),
        ensures
            path@ == self.pairs()[i as int].0,
    {
        self.map.key_at(i)
    }

    /// The listing of folder number `i`, where its block can be read.
    pub fn entries_at(&self, i: usize) -> (listing: Option<Vec<DirEntry>>)
        requires
            i < self.pairs().len(),
        ensures
            match listing {
                Some(list) => listing_at(self@, self.pairs()[i as int].1) == Some(rows(list@)),
                None => listing_at(self@, self.pairs()[i as int].1) is None,
            },
    {
        read_listing(&self.data, *self.map.value_at(i))
    }
}

// ── Storing a folder ─────────────────────────────────────────────────────────
/// The folders other than `key` whose blocks lie in the file, in their order.
pub open spec fn other_folders(
    data: Seq<u8>,
    pairs: Seq<(Seq<char>, IndexRecord)>,
    key: Seq<char>,
) -> Seq<StoredFolder>
    decreases pairs.len(),
{
    if pairs.len() == 0 {
        Seq::empty()
    } else {
        let head = other_folders(data, pairs.drop_last(), key);
        let (path, record) = pairs.last();
        match block_at(data, record.offset as nat, record.clen as nat) {
            Some(block) => if path == key {
                head
            } else {
                head.push(StoredFolder { path, block, total: record.total })
            },
            None => head,
        }
    }
}

/// The folders after `key` has got a new block: the others as they were, then `key`.
pub open spec fn with_folder(
    data: Seq<u8>,
    key: Seq<char>,
    packed: Seq<u8>,
    total: u64,
) -> Seq<StoredFolder> {
    other_folders(data, index_order(data), key).push(StoredFolder { path: key, block: packed, total })
}

proof fn lemma_others_fit(
    data: Seq<u8>,
    pairs: Seq<(Seq<char>, IndexRecord)>,
    key: Seq<char>,
)
    requires
        paths_fit(pairs),
    ensures
        folders_fit(other_folders(data, pairs, key)),
    decreases pairs.len(),
{
    if pairs.len() > 0 {
        let head = pairs.drop_last();
        assert forall|i: int| 0 <= i < head.len() implies encode_utf8(
            (#[trigger] head[i]).0,
        ).len() <= 65535 by {
            assert(pairs[i] == head[i]);
        }
        lemma_others_fit(data, head, key);
        assert(encode_utf8(pairs[pairs.len() - 1].0).len() <= 65535);
    }
}

/// The index file in which `path` has the compressed block `packed`.
pub fn replace_block(index: &LocalIndex, path: &str, packed: Vec<u8>, total: u64) -> (out: Vec<u8>)
    requires
        index.wf(),
        encode_utf8(trim_slashes_of(path@)).len() <= 65535,
    ensures
        out@ == dirs_file(
            with_folder(index@, trim_slashes_of(path@), packed@, total),
        ),
{
    let key = trim_slashes(path);
    let ghost data = index@;
    let ghost pairs = index.pairs();
    let mut list: Vec<FolderBlock> = Vec::new();
    let n: usize = index.map.len();
    let mut i: usize = 0;
    proof {
        assert(folders_view(list@) =~= Seq::<StoredFolder>::empty());
        assert(pairs.take(0) =~= Seq::<(Seq<char>, IndexRecord)>::empty());
    }
    while i < n
        invariant
            data == index.data@,
            pairs == index.map.pairs(),
            i <= n == pairs.len(),
            folders_view(list@) == other_folders(data, pairs.take(i as int), key@),
        decreases n - i,
    {
        let p = index.map.key_at(i);
        let record: IndexRecord = *index.map.value_at(i);
        let ghost before = folders_view(list@);
        proof {
            assert(pairs.take(i + 1).drop_last() =~= pairs.take(i as int));
            assert(pairs.take(i + 1).last() == pairs[i as int]);
        }
        if !same_text(p.as_str(), key.as_str()) {
            match block_of(&index.data, record) {
                Some(b) => {
                    let mut block: Vec<u8> = Vec::new();
                    block.extend_from_slice(b);
                    assert(block@ =~= b@);
                    list.push(FolderBlock { path: p.clone(), block, total: record.total });
                    assert(folders_view(list@) =~= before.push(
                        StoredFolder { path: p@, block: b@, total: record.total },
                    ));
                },
                None => {},
            }
        }
        i = i + 1;
    }
    let ghost before = folders_view(list@);
    let ghost last = StoredFolder { path: key@, block: packed@, total };
    assert(pairs.take(n as int) =~= pairs);
    list.push(FolderBlock { path: key, block: packed, total });
    proof {
        assert(folders_view(list@) =~= before.push(last));
        lemma_index_order(data);
        lemma_others_fit(data, pairs, key@);
        assert forall|j: int| 0 <= j < before.push(last).len() implies encode_utf8(
            (#[trigger] before.push(last)[j]).path,
        ).len() <= 65535 by {
            if j < before.len() {
                assert(encode_utf8(before[j].path).len() <= 65535);
            }
        }
    }
    assemble_dirs(&list)
}

/// The index file in which `path` has the listing `entries`, for the caller to write to disk and
/// then to load.
pub fn persist_folder(
    index: &LocalIndex,
    path: &str,
    entries: &Vec<DirEntry>,
    total_bytes: u64,
) -> (out: Option<Vec<u8>>)
    requires
        index.wf(),
        encode_utf8(trim_slashes_of(path@)).len() <= 65535,
    ensures
        out is Some,
        exists|packed: Seq<u8>| #[trigger]
            zstd_decoded(packed) == Some(block_bytes(rows(entries@))) && has_magic(packed)
                && out->0@ == dirs_file(
                with_folder(index@, trim_slashes_of(path@), packed, total_bytes),
            ),
{
    let raw = encode_block(entries);
    match zstd_encode(raw.as_slice(), 3) {
        Some(packed) => {
            let ghost p = packed@;
            let file = replace_block(index, path, packed, total_bytes);
            assert(zstd_decoded(p) == Some(block_bytes(rows(entries@))));
            Some(file)
        },
        None => None,
    }
}

/// The folder's record has the given total and points at the given block.
pub open spec fn holds(data: Seq<u8>, f: StoredFolder) -> bool {
    &&& index_map(data).contains_key(f.path)
    &&& index_map(data)[f.path].total == f.total
    &&& block_at(
        data,
        index_map(data)[f.path].offset as nat,
        index_map(data)[f.path].clen as nat,
    ) == Some(f.block)
}

/// No two folders have one path.
pub open spec fn distinct_paths(list: Seq<StoredFolder>) -> bool {
    forall|i: int, j: int|
        0 <= i < j < list.len() ==> (#[trigger] list[i]).path != (#[trigger] list[j]).path
}

/// The stored form of the pair, where its block lies in the file.
spec fn stored_pair(data: Seq<u8>, pair: (Seq<char>, IndexRecord), f: StoredFolder) -> bool {
    &&& f.path == pair.0
    &&& f.total == pair.1.total
    &&& block_at(data, pair.1.offset as nat, pair.1.clen as nat) == Some(f.block)
}

/// Where the folder number `j` of the others comes from.
proof fn lemma_other_from(
    data: Seq<u8>,
    pairs: Seq<(Seq<char>, IndexRecord)>,
    key: Seq<char>,
    j: int,
) -> (i: int)
    requires
        0 <= j < other_folders(data, pairs, key).len(),
    ensures
        0 <= i < pairs.len(),
        pairs[i].0 != key,
        stored_pair(data, pairs[i], other_folders(data, pairs, key)[j]),
    decreases pairs.len(),
{
    let head = pairs.drop_last();
    let before = other_folders(data, head, key);
    if j < before.len() {
        lemma_other_from(data, head, key, j)
    } else {
        pairs.len() - 1
    }
}

/// Where the pair number `i` stands among the others.
proof fn lemma_other_to(
    data: Seq<u8>,
    pairs: Seq<(Seq<char>, IndexRecord)>,
    key: Seq<char>,
    i: int,
) -> (j: int)
    requires
        0 <= i < pairs.len(),
        pairs[i].0 != key,
        block_at(data, pairs[i].1.offset as nat, pairs[i].1.clen as nat) is Some,
    ensures
        0 <= j < other_folders(data, pairs, key).len(),
        stored_pair(data, pairs[i], other_folders(data, pairs, key)[j]),
    decreases pairs.len(),
{
    let head = pairs.drop_last();
    let before = other_folders(data, head, key);
    if i < head.len() {
        lemma_other_to(data, head, key, i)
    } else {
        before.len() as int
    }
}

proof fn lemma_others_distinct(
    data: Seq<u8>,
    pairs: Seq<(Seq<char>, IndexRecord)>,
    key: Seq<char>,
)
    requires
        distinct_keys(pairs),
    ensures
        distinct_paths(other_folders(data, pairs, key)),
    decreases pairs.len(),
{
    if pairs.len() > 0 {
        let head = pairs.drop_last();
        assert forall|i: int, j: int| 0 <= i < j < head.len() implies (#[trigger] head[i]).0 != (
        #[trigger] head[j]).0 by {
            assert(pairs[i].0 != pairs[j].0);
        }
        lemma_others_distinct(data, head, key);
        let list = other_folders(data, pairs, key);
        let before = other_folders(data, head, key);
        assert forall|i: int, j: int| 0 <= i < j < list.len() implies (#[trigger] list[i]).path != (
        #[trigger] list[j]).path by {
            assert(list[i] == before[i]);
            if j < before.len() {
                assert(list[j] == before[j]);
            } else {
                let k = lemma_other_from(data, head, key, i);
                assert(pairs[k].0 != pairs[pairs.len() - 1].0);
            }
        }
    }
}

proof fn lemma_file_holds(list: Seq<StoredFolder>)
    requires
        folders_fit(list),
        distinct_paths(list),
        dirs_file(list).len() < 0x1_0000_0000,
    ensures
        forall|i: int| 0 <= i < list.len() ==> holds(dirs_file(list), #[trigger] list[i]),
        forall|k: Seq<char>| #[trigger]
            index_map(dirs_file(list)).contains_key(k) ==> exists|i: int|
                0 <= i < list.len() && (#[trigger] list[i]).path == k,
{
    law_index_round_trip(list);
    let data = dirs_file(list);
    let p = index_pairs(data)->0;
    assert forall|i: int, j: int| 0 <= i < j < p.len() implies (#[trigger] p[i]).0 != (
    #[trigger] p[j]).0 by {
        assert(list[i].path != list[j].path);
    }
    lemma_map_of(p);
    assert forall|i: int| 0 <= i < list.len() implies holds(data, #[trigger] list[i]) by {
        assert(p[i].0 == list[i].path);
    }
    assert forall|k: Seq<char>| #[trigger] index_map(data).contains_key(k) implies exists|i: int|
        0 <= i < list.len() && (#[trigger] list[i]).path == k by {
        let i = choose|i: int| 0 <= i < p.len() && (#[trigger] p[i]).0 == k;
        assert(list[i].path == k);
    }
}

proof fn lemma_with_folder(
    data: Seq<u8>,
    key: Seq<char>,
    packed: Seq<u8>,
    total: u64,
)
    requires
        encode_utf8(key).len() <= 65535,
    ensures
        folders_fit(with_folder(data, key, packed, total)),
        distinct_paths(with_folder(data, key, packed, total)),
{
    let pairs = index_order(data);
    lemma_index_order(data);
    let others = other_folders(data, pairs, key);
    let list = with_folder(data, key, packed, total);
    lemma_others_fit(data, pairs, key);
    lemma_others_distinct(data, pairs, key);
    assert forall|j: int| 0 <= j < list.len() implies encode_utf8((#[trigger] list[j]).path).len()
        <= 65535 by {
        if j < others.len() {
            assert(encode_utf8(others[j].path).len() <= 65535);
        }
    }
    assert forall|i: int, j: int| 0 <= i < j < list.len() implies (#[trigger] list[i]).path != (
    #[trigger] list[j]).path by {
        assert(list[i] == others[i]);
        if j < others.len() {
            assert(list[j] == others[j]);
        } else {
            let k = lemma_other_from(data, pairs, key, i);
            assert(pairs[k].0 == others[i].path);
        }
    }
}

/// No link of the lines that a block holds of a listing is cut inside a character.
pub open spec fn all_storable(listing: Seq<DirRow>) -> bool {
    forall|i: int| 0 <= i < block_count(listing.len()) ==> storable((#[trigger] listing[i]).href)
}

/// The block of a folder lies in the file, if the file knows the folder.
pub open spec fn lies_in_file(data: Seq<u8>, path: Seq<char>) -> bool {
    let key = trim_slashes_of(path);
    index_map(data).contains_key(key) ==> block_at(
        data,
        index_map(data)[key].offset as nat,
        index_map(data)[key].clen as nat,
    ) is Some
}

/// What is looked up after a folder was stored is what its block gives back, and where no link is
/// cut inside a character that is every line as it is stored. (The new file is shorter than 4 GiB.)
pub proof fn law_persist_then_lookup(
    data: Seq<u8>,
    path: Seq<char>,
    listing: Seq<DirRow>,
    packed: Seq<u8>,
    total: u64,
)
    requires
        encode_utf8(trim_slashes_of(path)).len() <= 65535,
        zstd_decoded(packed) == Some(block_bytes(listing)),
        dirs_file(with_folder(data, trim_slashes_of(path), packed, total)).len()
            < 0x1_0000_0000,
    ensures
        ({
            let file = dirs_file(with_folder(data, trim_slashes_of(path), packed, total));
            &&& looked_up(file, path) == block_rows(block_bytes(listing))
            &&& all_storable(listing) ==> looked_up(file, path) == Some(
                listing.take(block_count(listing.len()) as int).map_values(|e: DirRow| stored(e)),
            )
            &&& recorded_size(file, path) == if total > 0 {
                Some(total)
            } else {
                None
            }
        }),
{
    let key = trim_slashes_of(path);
    let list = with_folder(data, key, packed, total);
    lemma_with_folder(data, key, packed, total);
    lemma_file_holds(list);
    assert(holds(dirs_file(list), list[list.len() - 1]));
    if all_storable(listing) {
        law_block_round_trip(listing);
    }
}

/// Storing one folder leaves what is looked up of every other folder as it was, and its size too
/// where its block lies in the file. (A folder whose block lies outside the file leaves it.)
pub proof fn law_persist_keeps_others(
    data: Seq<u8>,
    path: Seq<char>,
    other: Seq<char>,
    packed: Seq<u8>,
    total: u64,
)
    requires
        encode_utf8(trim_slashes_of(path)).len() <= 65535,
        trim_slashes_of(other) != trim_slashes_of(path),
        dirs_file(with_folder(data, trim_slashes_of(path), packed, total)).len()
            < 0x1_0000_0000,
    ensures
        looked_up(
            dirs_file(with_folder(data, trim_slashes_of(path), packed, total)),
            other,
        ) == looked_up(data, other),
        lies_in_file(data, other) ==> recorded_size(
            dirs_file(with_folder(data, trim_slashes_of(path), packed, total)),
            other,
        ) == recorded_size(data, other),
{
    let key = trim_slashes_of(path);
    let k = trim_slashes_of(other);
    let pairs = index_order(data);
    lemma_index_order(data);
    let others = other_folders(data, pairs, key);
    let list = with_folder(data, key, packed, total);
    let file = dirs_file(list);
    lemma_with_folder(data, key, packed, total);
    lemma_file_holds(list);
    lemma_map_of(pairs);
    if index_map(data).contains_key(k) {
        let i = choose|i: int| 0 <= i < pairs.len() && (#[trigger] pairs[i]).0 == k;
        assert(pairs[i].0 == k);
        if block_at(data, pairs[i].1.offset as nat, pairs[i].1.clen as nat) is Some {
            let j = lemma_other_to(data, pairs, key, i);
            assert(list[j] == others[j]);
            assert(holds(file, list[j]));
        } else if index_map(file).contains_key(k) {
            let j = choose|j: int| 0 <= j < list.len() && (#[trigger] list[j]).path == k;
            assert(list[j] == others[j]);
            let m = lemma_other_from(data, pairs, key, j);
            assert(pairs[m].0 == pairs[i].0);
            assert(m == i) by {
                if m < i {
                    assert(pairs[m].0 != pairs[i].0);
                } else if i < m {
                    assert(pairs[i].0 != pairs[m].0);
                }
            }
        }
    } else if index_map(file).contains_key(k) {
        let j = choose|j: int| 0 <= j < list.len() && (#[trigger] list[j]).path == k;
        assert(list[j] == others[j]);
        let m = lemma_other_from(data, pairs, key, j);
        assert(pairs[m].0 == k);
    }
}

/// What is looked up in a file that was written from folders is what each folder's block gives
/// back, and where no link is cut inside a character that is every line as it is stored.
pub proof fn law_written_then_lookup(list: Seq<StoredFolder>, i: int, listing: Seq<DirRow>)
    requires
        folders_fit(list),
        distinct_paths(list),
        dirs_file(list).len() < 0x1_0000_0000,
        0 <= i < list.len(),
        trim_slashes_of(list[i].path) == list[i].path,
        zstd_decoded(list[i].block) == Some(block_bytes(listing)),
    ensures
        looked_up(dirs_file(list), list[i].path) == block_rows(block_bytes(listing)),
        all_storable(listing) ==> looked_up(dirs_file(list), list[i].path) == Some(
            listing.take(block_count(listing.len()) as int).map_values(|e: DirRow| stored(e)),
        ),
        recorded_size(dirs_file(list), list[i].path) == if list[i].total > 0 {
            Some(list[i].total)
        } else {
            None
        },
{
    lemma_file_holds(list);
    assert(holds(dirs_file(list), list[i]));
    if all_storable(listing) {
        law_block_round_trip(listing);
    }
}

// ── Folder sizes ─────────────────────────────────────────────────────────────
/// The bytes under a folder, as the index file has them: none where the folder or its total is
/// unknown.
pub open spec fn recorded_size(data: Seq<u8>, path: Seq<char>) -> Option<u64> {
    let key = trim_slashes_of(path);
    if index_map(data).contains_key(key) && index_map(data)[key].total > 0 {
        Some(index_map(data)[key].total)
    } else {
        None
    }
}

/// The bytes under a folder, where they are known.
pub fn folder_size(index: &LocalIndex, path: &str) -> (size: Option<u64>)
    requires
        index.wf(),
    ensures
        size == recorded_size(index@, path@),
{
    let key = trim_slashes(path);
    match index.map.get(key.as_str()) {
        Some(record) => if record.total > 0 {
            Some(record.total)
        } else {
            None
        },
        None => None,
    }
}

/// How many folders the index knows.
pub fn folder_count(index: &LocalIndex) -> (n: usize)
    requires
        index.wf(),
    ensures
        n == index_map(index@).len(),
        n == index.pairs().len(),
{
    index.map.len()
}

/// A folder directly under the root.
pub open spec fn is_top_level(path: Seq<char>) -> bool {
    path.len() > 0 && !path.contains('/')
}

/// The folders directly under the root, in their order in the index.
spec fn top_level_of(pairs: Seq<(Seq<char>, IndexRecord)>) -> Seq<Seq<char>>
    decreases pairs.len(),
{
    if pairs.len() == 0 {
        Seq::empty()
    } else {
        let head = top_level_of(pairs.drop_last());
        if is_top_level(pairs.last().0) {
            head.push(pairs.last().0)
        } else {
            head
        }
    }
}

proof fn lemma_top_level(pairs: Seq<(Seq<char>, IndexRecord)>)
    requires
        distinct_keys(pairs),
    ensures
        top_level_of(pairs).no_duplicates(),
        forall|k: Seq<char>| #[trigger]
            top_level_of(pairs).contains(k) <==> map_of(pairs).contains_key(k) && is_top_level(k),
    decreases pairs.len(),
{
    if pairs.len() > 0 {
        let head = pairs.drop_last();
        let last = pairs.last().0;
        assert(distinct_keys(head)) by {
            assert forall|i: int, j: int| 0 <= i < j < head.len() implies (#[trigger] head[i]).0
                != (#[trigger] head[j]).0 by {
                assert(pairs[i].0 != pairs[j].0);
            }
        }
        lemma_top_level(head);
        lemma_map_of(head);
        let before = top_level_of(head);
        let after = top_level_of(pairs);
        assert(!before.contains(last)) by {
            if before.contains(last) {
                let i = choose|i: int| 0 <= i < head.len() && (#[trigger] head[i]).0 == last;
                assert(pairs[i].0 != pairs[pairs.len() - 1].0);
            }
        }
        if is_top_level(last) {
            assert forall|k: Seq<char>| #[trigger] after.contains(k) <==> before.contains(k) || k
                == last by {
                if before.contains(k) {
                    let j = choose|j: int| 0 <= j < before.len() && before[j] == k;
                    assert(after[j] == k);
                }
                assert(after[before.len() as int] == last);
            }
            assert forall|i: int, j: int|
                0 <= i < after.len() && 0 <= j < after.len() && i != j implies after[i]
                != after[j] by {
                if i == before.len() {
                    assert(before.contains(before[j]));
                } else if j == before.len() {
                    assert(before.contains(before[i]));
                }
            }
        }
    } else {
        assert(map_of(pairs) =~= Map::<Seq<char>, IndexRecord>::empty());
    }
}

spec fn plain_keys(list: Seq<Seq<char>>) -> Seq<(int, Seq<char>)> {
    list.map_values(|k: Seq<char>| (0int, k))
}

/// The folders directly under the root, sorted.
pub fn top_level_folders(index: &LocalIndex) -> (folders: Vec<String>)
    requires
        index.wf(),
    ensures
        forall|i: int, j: int|
            0 <= i < j < folders@.len() ==> text_before(
                #[trigger] texts(folders@)[i],
                #[trigger] texts(folders@)[j],
            ),
        forall|k: Seq<char>| #[trigger]
            texts(folders@).contains(k) <==> index_map(index@).contains_key(k) && is_top_level(k),
{
    let ghost pairs = index.pairs();
    let ghost list = top_level_of(pairs);
    let mut keys: Vec<SortKey> = Vec::new();
    let n: usize = index.map.len();
    let mut i: usize = 0;
    assert(pairs.take(0) =~= Seq::<(Seq<char>, IndexRecord)>::empty());
    assert(keys_view(keys@) =~= plain_keys(top_level_of(pairs.take(0))));
    while i < n
        invariant
            pairs == index.map.pairs(),
            i <= n == pairs.len(),
            keys_view(keys@) == plain_keys(top_level_of(pairs.take(i as int))),
        decreases n - i,
    {
        let key = index.map.key_at(i);
        proof {
            assert(pairs.take(i + 1).drop_last() =~= pairs.take(i as int));
            assert(pairs.take(i + 1).last() == pairs[i as int]);
        }
        let ghost before = keys_view(keys@);
        if key.as_str().unicode_len() > 0 && !has_char(key.as_str(), '/') {
            keys.push(SortKey { rank: 0, text: key.clone() });
            assert(keys_view(keys@) =~= before.push((0int, key@)));
            assert(keys_view(keys@) =~= plain_keys(top_level_of(pairs.take(i + 1))));
        }
        i = i + 1;
    }
    proof {
        assert(pairs.take(n as int) =~= pairs);
        lemma_index_order(index@);
        lemma_top_level(pairs);
    }
    let order = sort_by_key(&keys);
    let ghost ks = keys_view(keys@);
    let ghost o = positions(order@);
    let mut folders: Vec<String> = Vec::new();
    let mut j: usize = 0;
    while j < order.len()
        invariant
            ks == keys_view(keys@),
            o == positions(order@),
            stable_order(ks, o),
            j <= order@.len(),
            folders@.len() == j,
            forall|a: int| 0 <= a < j ==> (#[trigger] texts(folders@)[a]) == ks[o[a]].1,
        decreases order@.len() - j,
    {
        assert(0 <= o[j as int] < ks.len());
        let ghost before = texts(folders@);
        folders.push(keys[order[j]].text.clone());
        proof {
            assert forall|a: int| 0 <= a < j + 1 implies (#[trigger] texts(folders@)[a])
                == ks[o[a]].1 by {
                if a < j {
                    assert(before[a] == texts(folders@)[a]);
                }
            }
        }
        j = j + 1;
    }
    proof {
        let f = texts(folders@);
        assert forall|a: int, b: int| 0 <= a < b < f.len() implies text_before(
            #[trigger] f[a],
            #[trigger] f[b],
        ) by {
            assert(precedes(ks, o[a], o[b]));
            lemma_text_order(ks[o[a]].1, ks[o[a]].1);
            assert(o[a] != o[b]);
            assert(list[o[a]] != list[o[b]]);
            lemma_text_order(f[a], f[b]);
        }
        assert forall|k: Seq<char>| #[trigger] f.contains(k) <==> list.contains(k) by {
            if f.contains(k) {
                let a = choose|a: int| 0 <= a < f.len() && f[a] == k;
                assert(0 <= o[a] < ks.len());
                assert(list[o[a]] == k);
            }
            if list.contains(k) {
                let p = choose|p: int| 0 <= p < list.len() && list[p] == k;
                assert(o.contains(p));
                let a = choose|a: int| 0 <= a < o.len() && o[a] == p;
                assert(f[a] == k);
            }
        }
    }
    folders
}

/// Slashes around a path do not matter for what is looked up.
pub proof fn law_lookup_ignores_slashes(data: Seq<u8>, path: Seq<char>, before: nat, after: nat)
    requires
        path.len() > 0,
        path[0] != '/',
        path.last() != '/',
    ensures
        ({
            let around = Seq::new(before, |i: int| '/') + path + Seq::new(after, |i: int| '/');
            &&& looked_up(data, around) == looked_up(data, path)
            &&& recorded_size(data, around) == recorded_size(data, path)
        }),
{
    law_trim_slashes(path, before, after);
    law_trim_slashes(path, 0, 0);
    let none = Seq::new(0, |i: int| '/');
    assert(none + path + none =~= path);
}

/// A folder that the index does not know is not found, and one whose block is not there or cannot be
/// read is not found either.
pub proof fn law_lookup_needs_block(data: Seq<u8>, path: Seq<char>)
    ensures
        !index_map(data).contains_key(trim_slashes_of(path)) ==> looked_up(data, path) is None
            && recorded_size(data, path) is None,
        index_map(data).contains_key(trim_slashes_of(path)) ==> ({
            let record = index_map(data)[trim_slashes_of(path)];
            &&& record.offset + record.clen > data.len() ==> looked_up(data, path) is None
            &&& record.offset + record.clen <= data.len() ==> ({
                let block = data.subrange(
                    record.offset as int,
                    record.offset as int + record.clen as int,
                );
                match zstd_decoded(block) {
                    Some(raw) => looked_up(data, path) == block_rows(raw),
                    None => looked_up(data, path) is None,
                }
            })
            &&& record.total == 0 ==> recorded_size(data, path) is None
            &&& record.total > 0 ==> recorded_size(data, path) == Some(record.total)
        }),
{
}

/// A folder that was stored is looked up line by line as it was, without a request, where its lines
/// fit into a block. (The new file is shorter than 4 GiB.)
pub proof fn law_persisted_lines(
    data: Seq<u8>,
    path: Seq<char>,
    listing: Seq<DirRow>,
    packed: Seq<u8>,
    total: u64,
    i: int,
)
    requires
        encode_utf8(trim_slashes_of(path)).len() <= 65535,
        zstd_decoded(packed) == Some(block_bytes(listing)),
        dirs_file(with_folder(data, trim_slashes_of(path), packed, total)).len()
            < 0x1_0000_0000,
        listing.len() <= 65535,
        forall|k: int| 0 <= k < listing.len() ==> fits_block(#[trigger] listing[k]),
        0 <= i < listing.len(),
    ensures
        ({
            let file = dirs_file(with_folder(data, trim_slashes_of(path), packed, total));
            &&& looked_up(file, path) is Some
            &&& ({
                let back = looked_up(file, path)->0;
                &&& back.len() == listing.len()
                &&& back[i].href == listing[i].href
                &&& back[i].date == listing[i].date
                &&& back[i].is_folder == listing[i].is_folder
                &&& !listing[i].is_folder ==> back[i].size_bytes == listing[i].size_bytes
            })
        }),
{
    law_persist_then_lookup(data, path, listing, packed, total);
    law_lines_come_back(listing, i);
}

/// The folders that go into the new file: every other folder with its block and its total as it was,
/// and the stored one last.
pub proof fn law_stored_folders(
    data: Seq<u8>,
    pairs: Seq<(Seq<char>, IndexRecord)>,
    path: Seq<char>,
    record: IndexRecord,
    key: Seq<char>,
    packed: Seq<u8>,
    total: u64,
)
    ensures
        with_folder(data, key, packed, total).last() == (StoredFolder {
            path: key,
            block: packed,
            total,
        }),
        with_folder(data, key, packed, total).drop_last() == other_folders(
            data,
            index_order(data),
            key,
        ),
        other_folders(data, Seq::empty(), key) == Seq::<StoredFolder>::empty(),
        path == key || record.offset + record.clen > data.len() ==> other_folders(
            data,
            pairs.push((path, record)),
            key,
        ) == other_folders(data, pairs, key),
        path != key && record.offset + record.clen <= data.len() ==> other_folders(
            data,
            pairs.push((path, record)),
            key,
        ) == other_folders(data, pairs, key).push(
            StoredFolder {
                path,
                block: data.subrange(
                    record.offset as int,
                    record.offset as int + record.clen as int,
                ),
                total: record.total,
            },
        ),
{
    assert(pairs.push((path, record)).drop_last() =~= pairs);
    assert(with_folder(data, key, packed, total).drop_last() =~= other_folders(
        data,
        index_order(data),
        key,
    ));
}

/// A folder is directly under the root where its path is one name.
pub proof fn law_top_level(path: Seq<char>)
    ensures
        is_top_level(path) <==> segments(path) == seq![path],
{
    if is_top_level(path) {
        law_segments(path, Seq::empty());
    } else if segments(path) == seq![path] {
        assert(non_empty(split_on(path, '/'))[0] == path);
        lemma_segment_plain(path, 0);
    }
}

proof fn lemma_segment_plain(path: Seq<char>, i: int)
    requires
        0 <= i < segments(path).len(),
    ensures
        segments(path)[i].len() > 0,
        !segments(path)[i].contains('/'),
    decreases path.len(),
{
    if !path.contains('/') {
        law_segments(path, Seq::empty());
        if path.len() == 0 {
            assert(path =~= Seq::<char>::empty());
        }
    } else {
        law_last_index(path, '/');
        let at = last_index_of(path, '/')->0;
        let a = path.take(at);
        let b = path.skip(at + 1);
        assert(a.push('/') + b =~= path);
        law_segments(a, b);
        if i < segments(a).len() {
            lemma_segment_plain(a, i);
        } else {
            lemma_segment_plain(b, i - segments(a).len());
        }
    }
}

/// A local file with something in it is never written over, and without one the program's own data
/// takes its place where it has any.
pub proof fn law_seeding(len: u64, embedded_len: nat)
    ensures
        needs_seed(None, embedded_len) <==> embedded_len >= 2,
        len >= 2 ==> !needs_seed(Some(len), embedded_len),
        len < 2 ==> (needs_seed(Some(len), embedded_len) <==> embedded_len >= 2),
{
}

} // verus!
