//! Writing the index file from the crawler's cache.
//!
//! A block of the file that is there already is taken over where it holds as many entries as the
//! cache has; only the others are compressed anew.

use crate::block::{block_bytes, block_count, entries_bytes, entry_bytes, push_entry, DirRow};
use crate::crawl::CachedDir;
use crate::generated_dirs::distinct_paths;
use crate::index::{
    block_at, block_of, dirs_file, file_records, folders_fit, index_pairs, law_index_round_trip,
    lemma_records_at_most, paths_fit, read_records, records_len, try_parse_index, FolderBlock,
    IndexRecord, StoredFolder,
};
use crate::le::{
    law_little_endian, le_value, lemma_le_len, lemma_le_value_bound, lemma_p256, push_le, read_le,
};
use crate::listing::{raws, RawEntry, RawRow};
use crate::outside::{has_magic, zstd_decode, zstd_decoded, zstd_encode};
use crate::strmap::{lemma_in_order, lemma_put_at_most, put_in_order, StrMap};
use vstd::prelude::*;
use vstd::utf8::encode_utf8;

verus! {

// ── The file that is there ───────────────────────────────────────────────────
/// How many bytes the records of the given folders take.
pub open spec fn records_span(pairs: Seq<(Seq<char>, IndexRecord)>, stride: nat) -> nat
    decreases pairs.len(),
{
    if pairs.len() == 0 {
        0
    } else {
        2 + encode_utf8(pairs[0].0).len() + stride + records_span(pairs.skip(1), stride)
    }
}

/// Whether a record points at a block: behind the records, which end at `end`, and inside the file.
pub open spec fn points_at_block(data: Seq<u8>, record: IndexRecord, end: nat) -> bool {
    record.offset >= end && match block_at(data, record.offset as nat, record.clen as nat) {
        Some(block) => has_magic(block),
        None => false,
    }
}

/// How many of the folders have their block.
pub open spec fn sound_blocks(
    data: Seq<u8>,
    pairs: Seq<(Seq<char>, IndexRecord)>,
    end: nat,
) -> nat
    decreases pairs.len(),
{
    if pairs.len() == 0 {
        0
    } else {
        sound_blocks(data, pairs.drop_last(), end) + if points_at_block(data, pairs.last().1, end) {
            1nat
        } else {
            0
        }
    }
}

/// The folders of an index file, read as if its records had `stride` bytes after the path: those
/// that it counts, as far as they are there. None where a path is not UTF-8.
pub open spec fn folders_by_stride(data: Seq<u8>, stride: nat) -> Seq<(Seq<char>, IndexRecord)> {
    match file_records(data, le_value(data.subrange(0, 4)), stride) {
        Some(records) => put_in_order(records),
        None => Seq::empty(),
    }
}

/// How many folders have their block where the file is read with the given stride.
pub open spec fn sound_by_stride(data: Seq<u8>, stride: nat) -> nat {
    let pairs = folders_by_stride(data, stride);
    sound_blocks(data, pairs, 4 + records_span(pairs, stride))
}

/// The folders of an index file in either format: the newer one, with totals, or the older one
/// without, whichever leads to more blocks, and the newer one where both lead to as many. `None`
/// where neither leads to a block.
pub open spec fn existing_folders(data: Seq<u8>) -> Option<Seq<(Seq<char>, IndexRecord)>> {
    if data.len() < 4 || (sound_by_stride(data, 16) == 0 && sound_by_stride(data, 8) == 0) {
        None
    } else if sound_by_stride(data, 16) >= sound_by_stride(data, 8) {
        Some(folders_by_stride(data, 16))
    } else {
        Some(folders_by_stride(data, 8))
    }
}

fn starts_with_magic(block: &[u8]) -> (yes: bool)
    ensures
        yes == has_magic(block@),
{
    block.len() >= 4 && block[0] == 0x28 && block[1] == 0xB5 && block[2] == 0x2F && block[3]
        == 0xFD
}

/// The folders by one of the formats, and how many of them have their block.
fn parse_by_stride(data: &Vec<u8>, num: usize, stride: usize) -> (out: (
    StrMap<IndexRecord>,
    usize,
))
    requires
        data@.len() >= 4,
        num as nat == le_value(data@.subrange(0, 4)),
        stride == 8 || stride == 16,
    ensures
        out.0.wf(),
        out.0.pairs() == folders_by_stride(data@, stride as nat),
        out.1 as nat == sound_by_stride(data@, stride as nat),
{
    match try_parse_index(data.as_slice(), num, stride) {
        Some(map) => {
            let sound: usize = count_sound(data, &map, stride);
            (map, sound)
        },
        None => (StrMap::new(), 0),
    }
}

/// How many bytes the records take.
fn span_of(map: &StrMap<IndexRecord>, stride: usize) -> (span: u128)
    requires
        map.wf(),
        paths_fit(map.pairs()),
        stride <= 16,
    ensures
        span as nat == records_span(map.pairs(), stride as nat),
        span <= 0x100_0000_0000_0000_0000_0000,
{
    let ghost pairs = map.pairs();
    let n: usize = map.len();
    let mut span: u128 = 0;
    let mut i: usize = 0;
    assert(pairs.skip(0) =~= pairs);
    while i < n
        invariant
            map.wf(),
            paths_fit(map.pairs()),
            pairs == map.pairs(),
            stride <= 16,
            i <= n == pairs.len(),
            span <= i * 0x2_0000,
            span as nat + records_span(pairs.skip(i as int), stride as nat) == records_span(
                pairs,
                stride as nat,
            ),
        decreases n - i,
    {
        let key = map.key_at(i);
        let len: usize = key.as_str().as_bytes().len();
        proof {
            assert(encode_utf8(pairs[i as int].0).len() <= 65535);
            assert(pairs.skip(i as int)[0] == pairs[i as int]);
            assert(pairs.skip(i as int).skip(1) =~= pairs.skip(i + 1));
        }
        span = span + 2 + len as u128 + stride as u128;
        i = i + 1;
    }
    assert(pairs.skip(n as int) =~= Seq::<(Seq<char>, IndexRecord)>::empty());
    span
}

fn count_sound(data: &Vec<u8>, map: &StrMap<IndexRecord>, stride: usize) -> (sound: usize)
    requires
        map.wf(),
        paths_fit(map.pairs()),
        stride <= 16,
    ensures
        sound as nat == sound_blocks(
            data@,
            map.pairs(),
            4 + records_span(map.pairs(), stride as nat),
        ),
{
    let ghost pairs = map.pairs();
    let ghost end = 4 + records_span(pairs, stride as nat);
    let n: usize = map.len();
    let span: u128 = span_of(map, stride);
    let mut sound: usize = 0;
    let mut i: usize = 0;
    assert(pairs.take(0) =~= Seq::<(Seq<char>, IndexRecord)>::empty());
    while i < n
        invariant
            map.wf(),
            pairs == map.pairs(),
            i <= n == pairs.len(),
            end == 4 + span as nat,
            span <= 0x100_0000_0000_0000_0000_0000,
            sound <= i,
            sound as nat == sound_blocks(data@, pairs.take(i as int), end),
        decreases n - i,
    {
        let record: IndexRecord = *map.value_at(i);
        proof {
            assert(pairs.take(i + 1).drop_last() =~= pairs.take(i as int));
            assert(pairs.take(i + 1).last() == pairs[i as int]);
        }
        let good: bool = match block_of(data, record) {
            Some(block) => starts_with_magic(block),
            None => false,
        };
        if good && record.offset as u128 >= 4 + span {
            sound = sound + 1;
        }
        i = i + 1;
    }
    assert(pairs.take(n as int) =~= pairs);
    sound
}

/// The folders of the index file that is there.
pub fn parse_existing_index(data: &Vec<u8>) -> (map: Option<StrMap<IndexRecord>>)
    ensures
        match map {
            Some(m) => m.wf() && existing_folders(data@) == Some(m.pairs()),
            None => existing_folders(data@) is None,
        },
{
    if data.len() < 4 {
        return None;
    }
    proof {
        lemma_p256();
        lemma_le_value_bound(data@.subrange(0, 4));
    }
    let num: usize = read_le(data.as_slice(), 0, 4) as usize;
    let (newer, in_newer) = parse_by_stride(data, num, 16);
    let (older, in_older) = parse_by_stride(data, num, 8);
    if in_newer == 0 && in_older == 0 {
        None
    } else if in_newer >= in_older {
        Some(newer)
    } else {
        Some(older)
    }
}

proof fn lemma_sound_at_most(data: Seq<u8>, pairs: Seq<(Seq<char>, IndexRecord)>, end: nat)
    ensures
        sound_blocks(data, pairs, end) <= pairs.len(),
    decreases pairs.len(),
{
    if pairs.len() > 0 {
        lemma_sound_at_most(data, pairs.drop_last(), end);
    }
}

proof fn lemma_all_sound(data: Seq<u8>, pairs: Seq<(Seq<char>, IndexRecord)>, end: nat)
    requires
        forall|i: int| 0 <= i < pairs.len() ==> points_at_block(data, (#[trigger] pairs[i]).1, end),
    ensures
        sound_blocks(data, pairs, end) == pairs.len(),
    decreases pairs.len(),
{
    if pairs.len() > 0 {
        let head = pairs.drop_last();
        assert forall|i: int| 0 <= i < head.len() implies points_at_block(
            data,
            (#[trigger] head[i]).1,
            end,
        ) by {
            assert(pairs[i] == head[i]);
        }
        lemma_all_sound(data, head, end);
        assert(points_at_block(data, pairs[pairs.len() - 1].1, end));
    }
}

proof fn lemma_span(pairs: Seq<(Seq<char>, IndexRecord)>, list: Seq<StoredFolder>)
    requires
        pairs.len() == list.len(),
        forall|i: int| 0 <= i < list.len() ==> (#[trigger] pairs[i]).0 == list[i].path,
    ensures
        records_span(pairs, 16) == records_len(list),
    decreases list.len(),
{
    if list.len() > 0 {
        let p = pairs.skip(1);
        let l = list.skip(1);
        assert forall|i: int| 0 <= i < l.len() implies (#[trigger] p[i]).0 == l[i].path by {
            assert(pairs[i + 1].0 == list[i + 1].path);
        }
        lemma_span(p, l);
        assert(pairs[0].0 == list[0].path);
    }
}

/// An index file that was written from folders, each with a compressed block, is recognised, and
/// every folder is found in it with its block and its total.
pub proof fn law_written_is_recognised(list: Seq<StoredFolder>)
    requires
        folders_fit(list),
        distinct_paths(list),
        list.len() > 0,
        dirs_file(list).len() < 0x1_0000_0000,
        forall|i: int| 0 <= i < list.len() ==> has_magic((#[trigger] list[i]).block),
    ensures
        existing_folders(dirs_file(list)) == index_pairs(dirs_file(list)),
        existing_folders(dirs_file(list)) is Some,
        existing_folders(dirs_file(list))->0.len() == list.len(),
        forall|i: int|
            0 <= i < list.len() ==> {
                let (path, record) = #[trigger] existing_folders(dirs_file(list))->0[i];
                &&& path == list[i].path
                &&& record.total == list[i].total
                &&& block_at(dirs_file(list), record.offset as nat, record.clen as nat) == Some(
                    list[i].block,
                )
            },
{
    let data = dirs_file(list);
    law_index_round_trip(list);
    let pairs = index_pairs(data)->0;
    assert forall|i: int, j: int| 0 <= i < j < pairs.len() implies (#[trigger] pairs[i]).0 != (
    #[trigger] pairs[j]).0 by {
        assert(list[i].path != list[j].path);
    }
    lemma_in_order(pairs);
    assert forall|i: int| 0 <= i < list.len() implies (#[trigger] pairs[i]).0 == list[i].path by {}
    lemma_span(pairs, list);
    assert forall|i: int| 0 <= i < pairs.len() implies points_at_block(
        data,
        (#[trigger] pairs[i]).1,
        4 + records_span(pairs, 16),
    ) by {
        assert(has_magic(list[i].block));
    }
    assert(data.len() >= 4) by {
        lemma_le_len(list.len(), 4);
    }
    lemma_all_sound(data, pairs, 4 + records_span(pairs, 16));
    let other = folders_by_stride(data, 8);
    lemma_sound_at_most(data, other, 4 + records_span(other, 8));
    let num = le_value(data.subrange(0, 4));
    if let Some(records) = file_records(data, num, 8) {
        lemma_records_at_most(data.skip(4), num, 8);
        lemma_put_at_most(records);
    }
}

// ── Which blocks to take over ────────────────────────────────────────────────
/// The block of the file that is there, where it holds `num` entries.
pub open spec fn reusable(
    data: Seq<u8>,
    folders: Map<Seq<char>, IndexRecord>,
    path: Seq<char>,
    num: nat,
) -> Option<Seq<u8>> {
    if folders.contains_key(path) {
        match block_at(data, folders[path].offset as nat, folders[path].clen as nat) {
            Some(block) => match zstd_decoded(block) {
                Some(raw) => if raw.len() >= 2 && le_value(raw.subrange(0, 2)) == num {
                    Some(block)
                } else {
                    None
                },
                None => None,
            },
            None => None,
        }
    } else {
        None
    }
}

/// The number of entries that a decompressed block says it has, where it is long enough.
pub fn entry_count(raw: &Vec<u8>) -> (num: Option<usize>)
    ensures
        match num {
            Some(n) => raw@.len() >= 2 && n as nat == le_value(raw@.subrange(0, 2)),
            None => raw@.len() < 2,
        },
{
    if raw.len() < 2 {
        None
    } else {
        proof {
            lemma_p256();
        }
        Some(read_le(raw.as_slice(), 0, 2) as usize)
    }
}

/// The block of the file that is there, where it holds `num` entries.
pub fn reuse_block(data: &Vec<u8>, folders: &StrMap<IndexRecord>, path: &str, num: usize) -> (block:
    Option<Vec<u8>>)
    requires
        folders.wf(),
    ensures
        match block {
            Some(b) => reusable(data@, folders@, path@, num as nat) == Some(b@),
            None => reusable(data@, folders@, path@, num as nat) is None,
        },
{
    match folders.get(path) {
        Some(record) => match block_of(data, *record) {
            Some(block) => match zstd_decode(block) {
                Some(raw) => match entry_count(&raw) {
                    Some(n) => if n == num {
                        let mut copy: Vec<u8> = Vec::new();
                        copy.extend_from_slice(block);
                        assert(copy@ =~= block@);
                        Some(copy)
                    } else {
                        None
                    },
                    None => None,
                },
                None => None,
            },
            None => None,
        },
        None => None,
    }
}

// ── New blocks ───────────────────────────────────────────────────────────────
/// A cached line as a block has it, with its size in bytes.
pub open spec fn cached_row(e: RawRow, size_bytes: u64) -> DirRow {
    DirRow {
        name: e.name,
        href: e.href,
        size: e.size,
        size_bytes,
        date: e.date,
        is_folder: e.is_folder,
    }
}

pub open spec fn cached_rows(entries: Seq<RawRow>, sizes: Seq<u64>) -> Seq<DirRow> {
    Seq::new(entries.len(), |i: int| cached_row(entries[i], sizes[i]))
}

/// How many entries the block of a folder gets.
pub fn block_len(entries: &Vec<RawEntry>) -> (num: usize)
    ensures
        num as nat == block_count(entries@.len()),
{
    if entries.len() < 65535 {
        entries.len()
    } else {
        65535
    }
}

/// The block of a cached folder, not compressed. `sizes` are the lines' sizes in bytes.
pub fn encode_cached(entries: &Vec<RawEntry>, sizes: &Vec<u64>) -> (raw: Vec<u8>)
    requires
        sizes@.len() == entries@.len(),
    ensures
        raw@ == block_bytes(cached_rows(raws(entries@), sizes@)),
{
    let ghost lines = cached_rows(raws(entries@), sizes@);
    let num: usize = block_len(entries);
    let mut buf: Vec<u8> = Vec::new();
    push_le(&mut buf, num as u64, 2);
    let ghost list = lines.take(num as int);
    assert(list.skip(0) =~= list);
    assert(buf@ + entries_bytes(list.skip(0)) =~= block_bytes(lines));
    let mut i: usize = 0;
    while i < num
        invariant
            sizes@.len() == entries@.len(),
            i <= num <= entries@.len(),
            lines == cached_rows(raws(entries@), sizes@),
            list == lines.take(num as int),
            buf@ + entries_bytes(list.skip(i as int)) == block_bytes(lines),
        decreases num - i,
    {
        let e = &entries[i];
        let ghost row = cached_row(e@, sizes@[i as int]);
        let ghost before = buf@;
        push_entry(&mut buf, e.href.as_str(), sizes[i], e.date.as_str(), e.is_folder);
        proof {
            assert(raws(entries@)[i as int] == e@);
            assert(list[i as int] == row);
            assert(buf@ == before + entry_bytes(row));
            assert(list.skip(i as int).skip(1) =~= list.skip(i + 1));
            assert(buf@ + entries_bytes(list.skip(i + 1)) =~= before + entries_bytes(
                list.skip(i as int),
            ));
        }
        i = i + 1;
    }
    assert(list.skip(num as int) =~= Seq::<DirRow>::empty());
    assert(buf@ + entries_bytes(list.skip(num as int)) =~= buf@);
    buf
}

/// Compresses a new block.
pub fn compress_block(raw: &Vec<u8>) -> (packed: Option<Vec<u8>>)
    ensures
        packed matches Some(p) && zstd_decoded(p@) == Some(raw@) && has_magic(p@),
{
    zstd_encode(raw.as_slice(), 19)
}

/// Whether progress is told after block number `done` of `total`: about every twentieth, and the
/// last.
pub fn tells_progress(done: usize, total: usize) -> (tell: bool)
    ensures
        tell == (done == total || done as int % (if total < 20 {
            1
        } else {
            total as int / 20
        }) == 0),
{
    let interval: usize = if total < 20 {
        1
    } else {
        total / 20
    };
    done % interval == 0 || done == total
}

// ── The whole file ───────────────────────────────────────────────────────────
/// A folder on its way into the file: a block that is taken over, or one that has to be
/// compressed.
pub struct PlannedBlock {
    pub path: String,
    pub total: u64,
    pub reused: Option<Vec<u8>>,
    pub raw: Vec<u8>,
}

/// What is planned for a folder of the cache.
pub open spec fn is_plan_for(
    plan: PlannedBlock,
    path: Seq<char>,
    dir: CachedDir,
    sizes: Seq<u64>,
    existing: Seq<u8>,
    folders: Map<Seq<char>, IndexRecord>,
) -> bool {
    &&& plan.path@ == path
    &&& plan.total == dir.total_bytes
    &&& match reusable(existing, folders, path, block_count(dir.entries@.len())) {
        Some(block) => plan.reused matches Some(b) && b@ == block && plan.raw@.len() == 0,
        None => plan.reused is None && plan.raw@ == block_bytes(
            cached_rows(raws(dir.entries@), sizes),
        ),
    }
}

/// Plans the blocks of the given folders. `sizes` are, folder by folder, the lines' sizes in
/// bytes; `existing` is the file that is there, with its folders.
pub fn plan_blocks(
    dirs: &StrMap<CachedDir>,
    paths: &Vec<String>,
    sizes: &Vec<Vec<u64>>,
    existing: &Vec<u8>,
    folders: &StrMap<IndexRecord>,
) -> (plans: Vec<PlannedBlock>)
    requires
        dirs.wf(),
        folders.wf(),
        sizes@.len() == paths@.len(),
        forall|i: int|
            0 <= i < paths@.len() ==> dirs@.contains_key((#[trigger] paths@[i])@)
                && sizes@[i]@.len() == dirs@[paths@[i]@].entries@.len(),
    ensures
        plans@.len() == paths@.len(),
        forall|i: int|
            0 <= i < plans@.len() ==> is_plan_for(
                #[trigger] plans@[i],
                paths@[i]@,
                dirs@[paths@[i]@],
                sizes@[i]@,
                existing@,
                folders@,
            ),
{
    let mut plans: Vec<PlannedBlock> = Vec::new();
    let mut i: usize = 0;
    while i < paths.len()
        invariant
            dirs.wf(),
            folders.wf(),
            sizes@.len() == paths@.len(),
            forall|k: int|
                0 <= k < paths@.len() ==> dirs@.contains_key((#[trigger] paths@[k])@)
                    && sizes@[k]@.len() == dirs@[paths@[k]@].entries@.len(),
            i <= paths@.len(),
            plans@.len() == i,
            forall|k: int|
                0 <= k < i ==> is_plan_for(
                    #[trigger] plans@[k],
                    paths@[k]@,
                    dirs@[paths@[k]@],
                    sizes@[k]@,
                    existing@,
                    folders@,
                ),
        decreases paths@.len() - i,
    {
        let path = &paths[i];
        assert(dirs@.contains_key(paths@[i as int]@));
        match dirs.get(path.as_str()) {
            Some(dir) => {
                let num: usize = block_len(&dir.entries);
                let reused = reuse_block(existing, folders, path.as_str(), num);
                let raw: Vec<u8> = if reused.is_some() {
                    Vec::new()
                } else {
                    encode_cached(&dir.entries, &sizes[i])
                };
                plans.push(
                    PlannedBlock { path: path.clone(), total: dir.total_bytes, reused, raw },
                );
            },
            None => {
                assert(false);
            },
        }
        i = i + 1;
    }
    plans
}

/// The compressed block of a planned folder: the one that is taken over, or a new one.
pub fn packed_block(plan: &PlannedBlock) -> (packed: Option<Vec<u8>>)
    ensures
        match plan.reused {
            Some(b) => packed matches Some(p) && p@ == b@,
            None => packed matches Some(p) && zstd_decoded(p@) == Some(plan.raw@) && has_magic(p@),
        },
{
    match &plan.reused {
        Some(b) => {
            let mut copy: Vec<u8> = Vec::new();
            copy.extend_from_slice(b.as_slice());
            assert(copy@ =~= b@);
            Some(copy)
        },
        None => compress_block(&plan.raw),
    }
}

/// The folders that go into the file: each plan with its compressed block.
pub fn with_blocks(plans: &Vec<PlannedBlock>, packed: Vec<Vec<u8>>) -> (list: Vec<FolderBlock>)
    requires
        packed@.len() == plans@.len(),
    ensures
        list@.len() == plans@.len(),
        forall|i: int|
            0 <= i < list@.len() ==> (#[trigger] list@[i])@ == (StoredFolder {
                path: plans@[i].path@,
                block: packed@[i]@,
                total: plans@[i].total,
            }),
{
    let mut list: Vec<FolderBlock> = Vec::new();
    let mut i: usize = 0;
    while i < plans.len()
        invariant
            packed@.len() == plans@.len(),
            i <= plans@.len(),
            list@.len() == i,
            forall|k: int|
                0 <= k < i ==> (#[trigger] list@[k])@ == (StoredFolder {
                    path: plans@[k].path@,
                    block: packed@[k]@,
                    total: plans@[k].total,
                }),
        decreases plans@.len() - i,
    {
        let mut block: Vec<u8> = Vec::new();
        block.extend_from_slice(packed[i].as_slice());
        assert(block@ =~= packed@[i as int]@);
        list.push(
            FolderBlock { path: plans[i].path.clone(), block, total: plans[i].total },
        );
        i = i + 1;
    }
    list
}

/// A block is taken over where the file has the folder and its block, decompressed, counts as many
/// lines as are wanted; then it is taken over as it is.
pub proof fn law_reused(
    data: Seq<u8>,
    folders: Map<Seq<char>, IndexRecord>,
    path: Seq<char>,
    num: nat,
)
    ensures
        !folders.contains_key(path) ==> reusable(data, folders, path, num) is None,
        folders.contains_key(path) ==> ({
            let record = folders[path];
            let block = data.subrange(
                record.offset as int,
                record.offset as int + record.clen as int,
            );
            &&& record.offset + record.clen > data.len() ==> reusable(data, folders, path, num) is None
            &&& record.offset + record.clen <= data.len() ==> match zstd_decoded(block) {
                Some(raw) => {
                    &&& raw.len() >= 2 && raw[0] + 256 * raw[1] == num ==> reusable(
                        data,
                        folders,
                        path,
                        num,
                    ) == Some(block)
                    &&& raw.len() < 2 || raw[0] + 256 * raw[1] != num ==> reusable(
                        data,
                        folders,
                        path,
                        num,
                    ) is None
                },
                None => reusable(data, folders, path, num) is None,
            }
        }),
{
    if folders.contains_key(path) {
        let record = folders[path];
        if record.offset + record.clen <= data.len() {
            let block = data.subrange(
                record.offset as int,
                record.offset as int + record.clen as int,
            );
            if let Some(raw) = zstd_decoded(block) {
                if raw.len() >= 2 {
                    assert(raw.subrange(0, 2) =~= seq![raw[0], raw[1]]);
                    law_little_endian(0, raw[0], raw[1], 0, 0);
                }
            }
        }
    }
}

/// A line of the cache goes into the file as it is, with its size in bytes.
pub proof fn law_cached_line(entries: Seq<RawRow>, sizes: Seq<u64>, i: int)
    requires
        0 <= i < entries.len(),
    ensures
        cached_rows(entries, sizes).len() == entries.len(),
        ({
            let row = cached_rows(entries, sizes)[i];
            &&& row.name == entries[i].name
            &&& row.href == entries[i].href
            &&& row.size == entries[i].size
            &&& row.date == entries[i].date
            &&& row.is_folder == entries[i].is_folder
            &&& row.size_bytes == sizes[i]
        }),
{
}

/// What is planned for a folder: its block as the file has it, where that counts as many lines as
/// the cache has, and otherwise the lines of the cache. Its total is the cache's in either case.
pub proof fn law_plan(
    plan: PlannedBlock,
    path: Seq<char>,
    dir: CachedDir,
    sizes: Seq<u64>,
    existing: Seq<u8>,
    folders: Map<Seq<char>, IndexRecord>,
)
    requires
        is_plan_for(plan, path, dir, sizes, existing, folders),
        dir.entries@.len() <= 65535,
    ensures
        plan.path@ == path,
        plan.total == dir.total_bytes,
        match reusable(existing, folders, path, dir.entries@.len()) {
            Some(block) => plan.reused is Some && plan.reused->0@ == block,
            None => plan.reused is None && plan.raw@ == block_bytes(
                cached_rows(raws(dir.entries@), sizes),
            ),
        },
{
}

/// A record counts where its block lies behind the records and in the file and begins like a zstd
/// frame.
pub proof fn law_sound_block(data: Seq<u8>, record: IndexRecord, end: nat)
    ensures
        points_at_block(data, record, end) <==> record.offset >= end && record.clen >= 4
            && record.offset + record.clen <= data.len() && data.subrange(
            record.offset as int,
            record.offset as int + 4,
        ) == seq![0x28u8, 0xB5u8, 0x2Fu8, 0xFDu8],
{
    if record.clen >= 4 && record.offset + record.clen <= data.len() {
        let at = record.offset as int;
        let head = data.subrange(at, at + 4);
        let block = data.subrange(at, at + record.clen as int);
        assert(head[0] == block[0] && head[1] == block[1] && head[2] == block[2] && head[3]
            == block[3]);
        if points_at_block(data, record, end) {
            assert(head =~= seq![0x28u8, 0xB5u8, 0x2Fu8, 0xFDu8]);
        }
    }
}

/// Of the two formats the one counts that leads to more blocks: what is found is what that format
/// reads, and without any block nothing is found.
pub proof fn law_format_recognised(data: Seq<u8>)
    requires
        data.len() >= 4,
    ensures
        ({
            let count = data[0] + 256 * data[1] + 65536 * data[2] + 16777216 * data[3];
            let newer = read_records(data.skip(4), count as nat, 16);
            let older = read_records(data.skip(4), count as nat, 8);
            let in_newer = match newer {
                Some(records) => sound_blocks(
                    data,
                    put_in_order(records),
                    4 + records_span(put_in_order(records), 16),
                ),
                None => 0,
            };
            let in_older = match older {
                Some(records) => sound_blocks(
                    data,
                    put_in_order(records),
                    4 + records_span(put_in_order(records), 8),
                ),
                None => 0,
            };
            &&& in_newer == 0 && in_older == 0 ==> existing_folders(data) is None
            &&& in_newer > 0 && in_newer >= in_older ==> existing_folders(data) == Some(
                put_in_order(newer->0),
            )
            &&& in_older > in_newer ==> existing_folders(data) == Some(put_in_order(older->0))
        }),
{
    assert(data.subrange(0, 4) =~= seq![data[0], data[1], data[2], data[3]]);
    law_little_endian(0, data[0], data[1], data[2], data[3]);
}

} // verus!
