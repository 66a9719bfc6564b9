//! The index file: for every known folder its path, where its compressed listing stands in the
//! file, and how many bytes lie under it.
//!
//! The file is the number of folders in four bytes, then a record per folder, then the compressed
//! blocks. A record is the path with its length in two bytes, the block's offset in the file and
//! its length in four bytes each, and the folder's total in eight. All numbers are little-endian.

use crate::le::{
    law_little_endian, le_bytes, le_value, lemma_le_len, lemma_le_low, lemma_le_round_trip,
    lemma_le_value_bound, lemma_p256, push_le, read_le,
};
use crate::strmap::{
    distinct_keys, lemma_place_of, lemma_put_in_order, map_of, put_in_order, StrMap,
};
use crate::text::text_of_bytes;
use vstd::arithmetic::div_mod::lemma_add_mod_noop;
use vstd::prelude::*;
use vstd::slice::slice_subrange;
use vstd::utf8::{
    decode_utf8, decode_utf8_encode_utf8, encode_utf8, encode_utf8_decode_utf8,
    encode_utf8_valid_utf8, valid_utf8,
};

verus! {

/// Where a folder's block stands, and the bytes under the folder.
#[derive(Clone, Copy)]
pub struct IndexRecord {
    pub offset: u32,
    pub clen: u32,
    pub total: u64,
}

// ── Reading ──────────────────────────────────────────────────────────────────
/// What stands at the front of the records that are still to read.
pub enum RecordRead {
    /// The record is cut off.
    Stop,
    /// The path is not UTF-8.
    Bad,
    /// A path with its record, and how many bytes they took.
    Record(Seq<char>, IndexRecord, int),
}

/// Reads one record from the front of `rest`. `stride` bytes follow the path: offset and length,
/// and the total where there are sixteen.
pub open spec fn read_record(rest: Seq<u8>, stride: nat) -> RecordRead {
    let n = le_value(rest.subrange(0, 2)) as int;
    if rest.len() < 2 || 2 + n + stride > rest.len() {
        RecordRead::Stop
    } else if !valid_utf8(rest.subrange(2, 2 + n)) {
        RecordRead::Bad
    } else {
        RecordRead::Record(
            decode_utf8(rest.subrange(2, 2 + n)),
            IndexRecord {
                offset: le_value(rest.subrange(2 + n, 6 + n)) as u32,
                clen: le_value(rest.subrange(6 + n, 10 + n)) as u32,
                total: if stride == 16 {
                    le_value(rest.subrange(10 + n, 18 + n)) as u64
                } else {
                    0
                },
            },
            2 + n + stride,
        )
    }
}

/// Reads up to `count` records; `None` where a path is not UTF-8.
pub open spec fn read_records(rest: Seq<u8>, count: nat, stride: nat) -> Option<
    Seq<(Seq<char>, IndexRecord)>,
>
    decreases count,
{
    if count == 0 {
        Some(Seq::empty())
    } else {
        match read_record(rest, stride) {
            RecordRead::Stop => Some(Seq::empty()),
            RecordRead::Bad => None,
            RecordRead::Record(path, record, used) => match read_records(
                rest.skip(used),
                (count - 1) as nat,
                stride,
            ) {
                Some(tail) => Some(seq![(path, record)] + tail),
                None => None,
            },
        }
    }
}

/// The records of an index file, in their order; `None` where the file is too short to hold a
/// count or a path is not UTF-8.
pub open spec fn index_pairs(data: Seq<u8>) -> Option<Seq<(Seq<char>, IndexRecord)>> {
    if data.len() < 4 {
        None
    } else {
        read_records(data.skip(4), le_value(data.subrange(0, 4)), 16)
    }
}

/// The folders that an index file knows: none where it cannot be read.
pub open spec fn index_map(data: Seq<u8>) -> Map<Seq<char>, IndexRecord> {
    match index_pairs(data) {
        Some(pairs) => map_of(pairs),
        None => Map::empty(),
    }
}

/// The folders that an index file knows, each once, in the order in which their paths first stand
/// in it.
pub open spec fn index_order(data: Seq<u8>) -> Seq<(Seq<char>, IndexRecord)> {
    match index_pairs(data) {
        Some(pairs) => put_in_order(pairs),
        None => Seq::empty(),
    }
}

/// Each path fits into a record.
pub open spec fn paths_fit(pairs: Seq<(Seq<char>, IndexRecord)>) -> bool {
    forall|i: int| 0 <= i < pairs.len() ==> encode_utf8((#[trigger] pairs[i]).0).len() <= 65535
}

proof fn lemma_records_fit(rest: Seq<u8>, count: nat, stride: nat)
    requires
        read_records(rest, count, stride) is Some,
    ensures
        paths_fit(read_records(rest, count, stride)->0),
    decreases count,
{
    if count > 0 {
        if let RecordRead::Record(path, record, used) = read_record(rest, stride) {
            let tail = read_records(rest.skip(used), (count - 1) as nat, stride)->0;
            lemma_records_fit(rest.skip(used), (count - 1) as nat, stride);
            let n = le_value(rest.subrange(0, 2)) as int;
            lemma_p256();
            lemma_le_value_bound(rest.subrange(0, 2));
            decode_utf8_encode_utf8(rest.subrange(2, 2 + n));
            let all = seq![(path, record)] + tail;
            assert forall|i: int| 0 <= i < all.len() implies encode_utf8(
                (#[trigger] all[i]).0,
            ).len() <= 65535 by {
                if i > 0 {
                    assert(all[i] == tail[i - 1]);
                }
            }
        }
    }
}

/// The folders in their order are what the index file knows, each once, with a path that fits.
pub proof fn lemma_index_order(data: Seq<u8>)
    ensures
        distinct_keys(index_order(data)),
        paths_fit(index_order(data)),
        map_of(index_order(data)) == index_map(data),
{
    if let Some(pairs) = index_pairs(data) {
        lemma_put_in_order(pairs);
        lemma_records_fit(data.skip(4), le_value(data.subrange(0, 4)), 16);
        let order = index_order(data);
        assert forall|i: int| 0 <= i < order.len() implies encode_utf8(
            (#[trigger] order[i]).0,
        ).len() <= 65535 by {
            assert(pairs.contains(order[i]));
            let k = choose|k: int| 0 <= k < pairs.len() && pairs[k] == order[i];
            assert(encode_utf8(pairs[k].0).len() <= 65535);
        }
    }
}

enum ParsedRecord {
    Stop,
    Bad,
    Record(String, IndexRecord, usize),
}

/// Reads one record at `start`.
fn parse_record(data: &[u8], start: usize, stride: usize) -> (out: ParsedRecord)
    requires
        start <= data@.len(),
        stride == 8 || stride == 16,
    ensures
        match out {
            ParsedRecord::Stop => read_record(data@.skip(start as int), stride as nat) is Stop,
            ParsedRecord::Bad => read_record(data@.skip(start as int), stride as nat) is Bad,
            ParsedRecord::Record(path, record, end) => {
                &&& start < end <= data@.len()
                &&& encode_utf8(path@).len() <= 65535
                &&& read_record(data@.skip(start as int), stride as nat) == RecordRead::Record(
                    path@,
                    record,
                    end - start,
                )
            },
        },
{
    let end: usize = data.len();
    let ghost rest = data@.skip(start as int);
    if end - start < 2 {
        return ParsedRecord::Stop;
    }
    proof {
        lemma_p256();
        assert(rest.subrange(0, 2) =~= data@.subrange(start as int, start + 2));
        lemma_le_value_bound(rest.subrange(0, 2));
    }
    let path_len: usize = read_le(data, start, 2) as usize;
    let pos: usize = start + 2;
    if end - pos < path_len || end - pos - path_len < stride {
        return ParsedRecord::Stop;
    }
    let ghost n = path_len as int;
    let ghost bytes = rest.subrange(2, 2 + n);
    assert(bytes =~= data@.subrange(pos as int, pos + n));
    let path = match text_of_bytes(slice_subrange(data, pos, pos + path_len)) {
        Some(p) => p,
        None => {
            return ParsedRecord::Bad;
        },
    };
    let at: usize = pos + path_len;
    proof {
        decode_utf8_encode_utf8(bytes);
        assert(rest.subrange(2 + n, 6 + n) =~= data@.subrange(at as int, at + 4));
        assert(rest.subrange(6 + n, 10 + n) =~= data@.subrange(at + 4, at + 8));
        lemma_le_value_bound(rest.subrange(2 + n, 6 + n));
        lemma_le_value_bound(rest.subrange(6 + n, 10 + n));
    }
    let offset: u32 = read_le(data, at, 4) as u32;
    let clen: u32 = read_le(data, at + 4, 4) as u32;
    let total: u64 = if stride == 16 {
        proof {
            assert(rest.subrange(10 + n, 18 + n) =~= data@.subrange(at + 8, at + 16));
        }
        read_le(data, at + 8, 8)
    } else {
        0
    };
    ParsedRecord::Record(path, IndexRecord { offset, clen, total }, at + stride)
}

proof fn lemma_map_of_append(a: Seq<(Seq<char>, IndexRecord)>, x: (Seq<char>, IndexRecord))
    ensures
        map_of(a.push(x)) == map_of(a).insert(x.0, x.1),
{
    assert(a.push(x).drop_last() =~= a);
}

pub proof fn lemma_records_at_most(rest: Seq<u8>, count: nat, stride: nat)
    ensures
        read_records(rest, count, stride) matches Some(list) ==> list.len() <= count,
    decreases count,
{
    if count > 0 {
        if let RecordRead::Record(path, record, used) = read_record(rest, stride) {
            lemma_records_at_most(rest.skip(used), (count - 1) as nat, stride);
        }
    }
}

/// Up to `num` records of an index file, which stand behind its first four bytes. A file without
/// those bytes has none.
pub open spec fn file_records(data: Seq<u8>, num: nat, stride: nat) -> Option<
    Seq<(Seq<char>, IndexRecord)>,
> {
    if data.len() < 4 {
        Some(Seq::empty())
    } else {
        read_records(data.skip(4), num, stride)
    }
}

/// The folders that the `num` records of an index file name; `None` where a path is not UTF-8.
pub fn try_parse_index(data: &[u8], num: usize, stride: usize) -> (map: Option<
    StrMap<IndexRecord>,
>)
    requires
        stride == 8 || stride == 16,
    ensures
        match map {
            Some(m) => {
                &&& m.wf()
                &&& paths_fit(m.pairs())
                &&& file_records(data@, num as nat, stride as nat) is Some
                &&& m@ == map_of(file_records(data@, num as nat, stride as nat)->0)
                &&& m.pairs() == put_in_order(file_records(data@, num as nat, stride as nat)->0)
            },
            None => file_records(data@, num as nat, stride as nat) is None,
        },
{
    if data.len() < 4 {
        return Some(StrMap::new());
    }
    let mut map: StrMap<IndexRecord> = StrMap::new();
    let mut pos: usize = 4;
    let mut i: usize = 0;
    let ghost mut done: Seq<(Seq<char>, IndexRecord)> = Seq::empty();
    let ghost whole = read_records(data@.skip(4), num as nat, stride as nat);
    proof {
        if let Some(tail) = whole {
            assert(done + tail =~= tail);
        }
    }
    while i < num
        invariant
            i <= num,
            4 <= pos <= data@.len(),
            stride == 8 || stride == 16,
            whole == read_records(data@.skip(4), num as nat, stride as nat),
            map.wf(),
            paths_fit(map.pairs()),
            map@ == map_of(done),
            map.pairs() == put_in_order(done),
            match read_records(data@.skip(pos as int), (num - i) as nat, stride as nat) {
                Some(tail) => whole == Some(done + tail),
                None => whole is None,
            },
        decreases num - i,
    {
        let ghost rest = data@.skip(pos as int);
        match parse_record(data, pos, stride) {
            ParsedRecord::Stop => {
                assert(done + Seq::<(Seq<char>, IndexRecord)>::empty() =~= done);
                return Some(map);
            },
            ParsedRecord::Bad => {
                return None;
            },
            ParsedRecord::Record(path, record, next) => {
                let ghost x = (path@, record);
                let ghost before = done;
                let ghost old_pairs = map.pairs();
                map.insert(path, record);
                proof {
                    done = before.push(x);
                    lemma_map_of_append(before, x);
                    assert(done.drop_last() =~= before);
                    lemma_place_of(old_pairs, x.0);
                    assert(rest.skip(next - pos) =~= data@.skip(next as int));
                    match read_records(
                        data@.skip(next as int),
                        (num - i - 1) as nat,
                        stride as nat,
                    ) {
                        Some(tail) => {
                            assert(before + (seq![x] + tail) =~= done + tail);
                        },
                        None => {},
                    }
                    assert forall|j: int| 0 <= j < map.pairs().len() implies encode_utf8(
                        (#[trigger] map.pairs()[j]).0,
                    ).len() <= 65535 by {
                        if j < old_pairs.len() {
                            assert(encode_utf8(old_pairs[j].0).len() <= 65535);
                        }
                    }
                }
                pos = next;
            },
        }
        i = i + 1;
    }
    assert(done + Seq::<(Seq<char>, IndexRecord)>::empty() =~= done);
    Some(map)
}

/// The folders that an index file knows.
pub fn parse_index(data: &[u8]) -> (map: Option<StrMap<IndexRecord>>)
    ensures
        match map {
            Some(m) => {
                &&& m.wf()
                &&& paths_fit(m.pairs())
                &&& index_pairs(data@) is Some
                &&& m@ == map_of(index_pairs(data@)->0)
                &&& m.pairs() == put_in_order(index_pairs(data@)->0)
            },
            None => index_pairs(data@) is None,
        },
{
    if data.len() < 4 {
        return None;
    }
    proof {
        lemma_p256();
        lemma_le_value_bound(data@.subrange(0, 4));
    }
    let num: usize = read_le(data, 0, 4) as usize;
    try_parse_index(data, num, 16)
}

// ── Blocks ───────────────────────────────────────────────────────────────────
/// The compressed block that a record points at; `None` where it lies outside the file.
pub open spec fn block_at(data: Seq<u8>, offset: nat, clen: nat) -> Option<Seq<u8>> {
    if offset + clen <= data.len() {
        Some(data.subrange(offset as int, (offset + clen) as int))
    } else {
        None
    }
}

/// The compressed block that a record points at.
pub fn block_of(data: &Vec<u8>, record: IndexRecord) -> (block: Option<&[u8]>)
    ensures
        match block {
            Some(b) => block_at(data@, record.offset as nat, record.clen as nat) == Some(b@),
            None => block_at(data@, record.offset as nat, record.clen as nat) is None,
        },
{
    let len: usize = data.len();
    let offset: usize = record.offset as usize;
    let clen: usize = record.clen as usize;
    if offset > len || clen > len - offset {
        None
    } else {
        Some(slice_subrange(data.as_slice(), offset, offset + clen))
    }
}

// ── Writing ──────────────────────────────────────────────────────────────────
/// A folder on its way into an index file: path, compressed block, total.
pub struct FolderBlock {
    pub path: String,
    pub block: Vec<u8>,
    pub total: u64,
}

/// What stands in a folder's block and record.
#[verifier::ext_equal]
pub struct StoredFolder {
    pub path: Seq<char>,
    pub block: Seq<u8>,
    pub total: u64,
}

impl View for FolderBlock {
    type V = StoredFolder;

    open spec fn view(&self) -> StoredFolder {
        StoredFolder { path: self.path@, block: self.block@, total: self.total }
    }
}

/// What stands in the folders' blocks and records.
pub open spec fn folders_view(list: Seq<FolderBlock>) -> Seq<StoredFolder> {
    list.map_values(|f: FolderBlock| f@)
}

/// The record of a folder whose block stands at `offset`.
pub open spec fn record_bytes(f: StoredFolder, offset: nat) -> Seq<u8> {
    le_bytes(encode_utf8(f.path).len(), 2) + encode_utf8(f.path) + le_bytes(offset, 4) + le_bytes(
        f.block.len(),
        4,
    ) + le_bytes(f.total as nat, 8)
}

/// The records of folders whose blocks stand one after the other from `base` on.
pub open spec fn records_bytes(list: Seq<StoredFolder>, base: nat) -> Seq<u8>
    decreases list.len(),
{
    if list.len() == 0 {
        Seq::empty()
    } else {
        record_bytes(list[0], base) + records_bytes(list.skip(1), base + list[0].block.len())
    }
}

/// The blocks, one after the other.
pub open spec fn blocks_bytes(list: Seq<StoredFolder>) -> Seq<u8>
    decreases list.len(),
{
    if list.len() == 0 {
        Seq::empty()
    } else {
        list[0].block + blocks_bytes(list.skip(1))
    }
}

/// How many bytes the records take.
pub open spec fn records_len(list: Seq<StoredFolder>) -> nat
    decreases list.len(),
{
    if list.len() == 0 {
        0
    } else {
        18 + encode_utf8(list[0].path).len() + records_len(list.skip(1))
    }
}

/// The index file that holds the folders.
pub open spec fn dirs_file(list: Seq<StoredFolder>) -> Seq<u8> {
    le_bytes(list.len(), 4) + records_bytes(list, 4 + records_len(list)) + blocks_bytes(list)
}

/// Each path fits into a record.
pub open spec fn folders_fit(list: Seq<StoredFolder>) -> bool {
    forall|i: int| 0 <= i < list.len() ==> encode_utf8((#[trigger] list[i]).path).len() <= 65535
}

/// The length of the records modulo 2^32.
fn records_size(list: &Vec<FolderBlock>) -> (size: u64)
    ensures
        size as nat == records_len(folders_view(list@)) % 0x1_0000_0000,
{
    let ghost view = folders_view(list@);
    let mut size: u64 = 0;
    let ghost mut exact: nat = 0;
    let mut i: usize = 0;
    assert(view.skip(0) =~= view);
    while i < list.len()
        invariant
            i <= list@.len(),
            view == folders_view(list@),
            size as nat == exact % 0x1_0000_0000,
            exact + records_len(view.skip(i as int)) == records_len(view),
        decreases list@.len() - i,
    {
        let len: usize = list[i].path.as_str().as_bytes().len();
        proof {
            assert(view.skip(i as int).skip(1) =~= view.skip(i + 1));
            assert(view.skip(i as int)[0] == list@[i as int]@);
            lemma_add_mod_noop(exact as int, len as int, 0x1_0000_0000);
            lemma_add_mod_noop((exact + len) as int, 18, 0x1_0000_0000);
            exact = exact + 18 + len as nat;
        }
        size = ((size + (len as u64) % 0x1_0000_0000) % 0x1_0000_0000 + 18) % 0x1_0000_0000;
        i = i + 1;
    }
    assert(view.skip(list@.len() as int) =~= Seq::<StoredFolder>::empty());
    size
}

/// Appends the record of a folder.
fn push_record(out: &mut Vec<u8>, folder: &FolderBlock, offset: u64)
    requires
        offset < 0x1_0000_0000,
    ensures
        final(out)@ == old(out)@ + record_bytes(folder@, offset as nat),
{
    let path = folder.path.as_str().as_bytes();
    push_le(out, path.len() as u64, 2);
    out.extend_from_slice(path);
    push_le(out, offset, 4);
    push_le(out, folder.block.len() as u64, 4);
    push_le(out, folder.total, 8);
    assert(out@ =~= old(out)@ + record_bytes(folder@, offset as nat));
}

/// The index file that holds the folders.
pub fn assemble_dirs(list: &Vec<FolderBlock>) -> (out: Vec<u8>)
    requires
        folders_fit(folders_view(list@)),
    ensures
        out@ == dirs_file(folders_view(list@)),
{
    let ghost view = folders_view(list@);
    let size: u64 = records_size(list);
    let mut out: Vec<u8> = Vec::new();
    push_le(&mut out, list.len() as u64, 4);
    let ghost count = le_bytes(view.len(), 4);
    assert(out@ =~= count);
    let ghost first = 4 + records_len(view);
    let ghost records = count + records_bytes(view, first);
    let ghost mut base: nat = first;
    proof {
        lemma_add_mod_noop(4, records_len(view) as int, 0x1_0000_0000);
    }
    let mut offset: u64 = (4 + size) % 0x1_0000_0000;
    let mut i: usize = 0;
    assert(view.skip(0) =~= view);
    while i < list.len()
        invariant
            i <= list@.len(),
            view == folders_view(list@),
            offset as nat == base % 0x1_0000_0000,
            out@ + records_bytes(view.skip(i as int), base) == records,
        decreases list@.len() - i,
    {
        let folder = &list[i];
        let ghost before = out@;
        push_record(&mut out, folder, offset);
        proof {
            assert(view.skip(i as int).skip(1) =~= view.skip(i + 1));
            assert(view.skip(i as int)[0] == folder@);
            lemma_le_low(base, 4);
            lemma_p256();
            assert(record_bytes(folder@, offset as nat) == record_bytes(folder@, base));
            let next = base + folder@.block.len();
            lemma_add_mod_noop(base as int, folder@.block.len() as int, 0x1_0000_0000);
            assert(out@ + records_bytes(view.skip(i + 1), next) =~= before + records_bytes(
                view.skip(i as int),
                base,
            ));
            base = next;
        }
        offset = (offset + (folder.block.len() as u64) % 0x1_0000_0000) % 0x1_0000_0000;
        i = i + 1;
    }
    assert(view.skip(list@.len() as int) =~= Seq::<StoredFolder>::empty());
    assert(out@ =~= records);
    i = 0;
    while i < list.len()
        invariant
            i <= list@.len(),
            view == folders_view(list@),
            out@ + blocks_bytes(view.skip(i as int)) == records + blocks_bytes(view),
        decreases list@.len() - i,
    {
        let ghost before = out@;
        out.extend_from_slice(list[i].block.as_slice());
        proof {
            assert(view.skip(i as int).skip(1) =~= view.skip(i + 1));
            assert(view.skip(i as int)[0] == list@[i as int]@);
            assert(out@ =~= before + list@[i as int]@.block);
            assert(out@ + blocks_bytes(view.skip(i + 1)) =~= before + blocks_bytes(
                view.skip(i as int),
            ));
        }
        i = i + 1;
    }
    assert(view.skip(list@.len() as int) =~= Seq::<StoredFolder>::empty());
    assert(out@ =~= out@ + blocks_bytes(view.skip(list@.len() as int)));
    out
}

// ── What comes back ──────────────────────────────────────────────────────────
/// The folders' paths and records where their blocks stand one after the other from `base` on.
pub open spec fn placed(list: Seq<StoredFolder>, base: nat) -> Seq<(Seq<char>, IndexRecord)>
    decreases list.len(),
{
    if list.len() == 0 {
        Seq::empty()
    } else {
        seq![
            (
                list[0].path,
                IndexRecord {
                    offset: base as u32,
                    clen: list[0].block.len() as u32,
                    total: list[0].total,
                },
            ),
        ] + placed(list.skip(1), base + list[0].block.len())
    }
}

proof fn lemma_read_back(f: StoredFolder, offset: nat, tail: Seq<u8>)
    requires
        encode_utf8(f.path).len() <= 65535,
        offset < 0x1_0000_0000,
        f.block.len() < 0x1_0000_0000,
    ensures
        record_bytes(f, offset).len() == 18 + encode_utf8(f.path).len(),
        read_record(record_bytes(f, offset) + tail, 16) == RecordRead::Record(
            f.path,
            IndexRecord { offset: offset as u32, clen: f.block.len() as u32, total: f.total },
            record_bytes(f, offset).len() as int,
        ),
{
    let p = encode_utf8(f.path);
    let n = p.len() as int;
    let rest = record_bytes(f, offset) + tail;
    lemma_p256();
    lemma_le_round_trip(p.len(), 2);
    lemma_le_round_trip(offset, 4);
    lemma_le_round_trip(f.block.len(), 4);
    lemma_le_round_trip(f.total as nat, 8);
    assert(rest.subrange(0, 2) =~= le_bytes(p.len(), 2));
    assert(rest.subrange(2, 2 + n) =~= p);
    assert(rest.subrange(2 + n, 6 + n) =~= le_bytes(offset, 4));
    assert(rest.subrange(6 + n, 10 + n) =~= le_bytes(f.block.len(), 4));
    assert(rest.subrange(10 + n, 18 + n) =~= le_bytes(f.total as nat, 8));
    encode_utf8_valid_utf8(f.path);
    encode_utf8_decode_utf8(f.path);
}

proof fn lemma_read_all(list: Seq<StoredFolder>, base: nat, tail: Seq<u8>)
    requires
        folders_fit(list),
        base + blocks_bytes(list).len() < 0x1_0000_0000,
    ensures
        read_records(records_bytes(list, base) + tail, list.len(), 16) == Some(placed(list, base)),
        records_bytes(list, base).len() == records_len(list),
    decreases list.len(),
{
    if list.len() > 0 {
        let f = list[0];
        let rest = list.skip(1);
        assert forall|i: int| 0 <= i < rest.len() implies encode_utf8(
            (#[trigger] rest[i]).path,
        ).len() <= 65535 by {
            assert(rest[i] == list[i + 1]);
        }
        let next = base + f.block.len();
        lemma_read_all(rest, next, tail);
        lemma_read_back(f, base, records_bytes(rest, next) + tail);
        let whole = records_bytes(list, base) + tail;
        assert(whole =~= record_bytes(f, base) + (records_bytes(rest, next) + tail));
        assert(whole.skip(record_bytes(f, base).len() as int) =~= records_bytes(rest, next) + tail);
    }
}

proof fn lemma_placed(list: Seq<StoredFolder>, base: nat, i: int)
    requires
        0 <= i < list.len(),
        base + blocks_bytes(list).len() < 0x1_0000_0000,
    ensures
        placed(list, base).len() == list.len(),
        placed(list, base)[i].0 == list[i].path,
        placed(list, base)[i].1.total == list[i].total,
        placed(list, base)[i].1.clen == list[i].block.len(),
        base <= placed(list, base)[i].1.offset,
        placed(list, base)[i].1.offset + list[i].block.len() <= base + blocks_bytes(list).len(),
        blocks_bytes(list).subrange(
            placed(list, base)[i].1.offset - base,
            placed(list, base)[i].1.offset - base + list[i].block.len(),
        ) == list[i].block,
    decreases list.len(),
{
    let f = list[0];
    let rest = list.skip(1);
    let next = base + f.block.len();
    if list.len() == 1 {
        assert(rest =~= Seq::<StoredFolder>::empty());
        assert(placed(rest, next).len() == 0);
    }
    if i == 0 {
        if list.len() > 1 {
            lemma_placed(rest, next, 0);
        }
        assert(blocks_bytes(list).subrange(0, f.block.len() as int) =~= f.block);
    } else {
        lemma_placed(rest, next, i - 1);
        let off = placed(list, base)[i].1.offset as int;
        assert(placed(list, base)[i] == placed(rest, next)[i - 1]);
        assert(list[i] == rest[i - 1]);
        assert(blocks_bytes(list).subrange(off - base, off - base + list[i].block.len())
            =~= blocks_bytes(rest).subrange(off - next, off - next + list[i].block.len()));
    }
}

/// An index file shorter than 4 GiB gives back what it was made of: its records are the folders
/// in their order, and each record points at its folder's block.
pub proof fn law_index_round_trip(list: Seq<StoredFolder>)
    requires
        folders_fit(list),
        dirs_file(list).len() < 0x1_0000_0000,
    ensures
        index_pairs(dirs_file(list)) is Some,
        index_pairs(dirs_file(list))->0.len() == list.len(),
        le_value(dirs_file(list).subrange(0, 4)) == list.len(),
        forall|i: int|
            0 <= i < list.len() ==> {
                let (path, record) = #[trigger] index_pairs(dirs_file(list))->0[i];
                &&& path == list[i].path
                &&& record.total == list[i].total
                &&& record.offset >= 4 + records_len(list)
                &&& block_at(dirs_file(list), record.offset as nat, record.clen as nat) == Some(
                    list[i].block,
                )
            },
{
    let data = dirs_file(list);
    let base = 4 + records_len(list);
    lemma_le_len(list.len(), 4);
    lemma_records_len(list, base);
    let records = records_bytes(list, base);
    let blocks = blocks_bytes(list);
    lemma_read_all(list, base, blocks);
    assert(list.len() <= records.len()) by {
        lemma_records_count(list);
    }
    lemma_p256();
    lemma_le_round_trip(list.len(), 4);
    assert(data.subrange(0, 4) =~= le_bytes(list.len(), 4));
    assert(data.skip(4) =~= records + blocks);
    let pairs = placed(list, base);
    assert(index_pairs(data) == Some(pairs));
    if list.len() > 0 {
        lemma_placed(list, base, 0);
    }
    assert forall|i: int| 0 <= i < list.len() implies ({
        let (path, record) = #[trigger] index_pairs(data)->0[i];
        &&& path == list[i].path
        &&& record.total == list[i].total
        &&& record.offset >= 4 + records_len(list)
        &&& block_at(data, record.offset as nat, record.clen as nat) == Some(list[i].block)
    }) by {
        lemma_placed(list, base, i);
        let r = pairs[i].1;
        assert(data.subrange(r.offset as int, r.offset + r.clen) =~= blocks.subrange(
            r.offset - base,
            r.offset - base + list[i].block.len(),
        ));
    }
}

proof fn lemma_records_len(list: Seq<StoredFolder>, base: nat)
    ensures
        records_bytes(list, base).len() == records_len(list),
    decreases list.len(),
{
    if list.len() > 0 {
        let f = list[0];
        lemma_records_len(list.skip(1), base + f.block.len());
        lemma_le_len(encode_utf8(f.path).len(), 2);
        lemma_le_len(base, 4);
        lemma_le_len(f.block.len(), 4);
        lemma_le_len(f.total as nat, 8);
    }
}

proof fn lemma_records_count(list: Seq<StoredFolder>)
    ensures
        list.len() <= records_len(list),
    decreases list.len(),
{
    if list.len() > 0 {
        lemma_records_count(list.skip(1));
    }
}

/// A block is what stands between its offset and its end, where that lies in the file.
pub proof fn law_block_at(before: Seq<u8>, block: Seq<u8>, after: Seq<u8>, offset: nat, clen: nat)
    ensures
        block_at(before + block + after, before.len(), block.len()) == Some(block),
        offset + clen > before.len() ==> block_at(before, offset, clen) is None,
{
    let data = before + block + after;
    assert(data.subrange(before.len() as int, (before.len() + block.len()) as int) =~= block);
}

/// A record is read as it stands in the file: the path behind its length, the offset and the length
/// of the block, and, in the format with totals, the total.
pub proof fn law_record_read(path: Seq<char>, offset: u32, clen: u32, total: u64, rest: Seq<u8>)
    requires
        encode_utf8(path).len() <= 65535,
    ensures
        ({
            let p = encode_utf8(path);
            let head = le_bytes(p.len(), 2) + p + le_bytes(offset as nat, 4) + le_bytes(
                clen as nat,
                4,
            );
            &&& read_record(head + rest, 8) == RecordRead::Record(
                path,
                IndexRecord { offset, clen, total: 0 },
                10 + p.len() as int,
            )
            &&& read_record(head + le_bytes(total as nat, 8) + rest, 16) == RecordRead::Record(
                path,
                IndexRecord { offset, clen, total },
                18 + p.len() as int,
            )
        }),
{
    let p = encode_utf8(path);
    let n = p.len() as int;
    lemma_p256();
    lemma_le_len(p.len(), 2);
    lemma_le_len(offset as nat, 4);
    lemma_le_len(clen as nat, 4);
    lemma_le_len(total as nat, 8);
    lemma_le_round_trip(p.len(), 2);
    lemma_le_round_trip(offset as nat, 4);
    lemma_le_round_trip(clen as nat, 4);
    lemma_le_round_trip(total as nat, 8);
    encode_utf8_valid_utf8(path);
    encode_utf8_decode_utf8(path);
    let head = le_bytes(p.len(), 2) + p + le_bytes(offset as nat, 4) + le_bytes(clen as nat, 4);
    let a = head + rest;
    assert(a.subrange(0, 2) =~= le_bytes(p.len(), 2));
    assert(a.subrange(2, 2 + n) =~= p);
    assert(a.subrange(2 + n, 6 + n) =~= le_bytes(offset as nat, 4));
    assert(a.subrange(6 + n, 10 + n) =~= le_bytes(clen as nat, 4));
    let b = head + le_bytes(total as nat, 8) + rest;
    assert(b.subrange(0, 2) =~= le_bytes(p.len(), 2));
    assert(b.subrange(2, 2 + n) =~= p);
    assert(b.subrange(2 + n, 6 + n) =~= le_bytes(offset as nat, 4));
    assert(b.subrange(6 + n, 10 + n) =~= le_bytes(clen as nat, 4));
    assert(b.subrange(10 + n, 18 + n) =~= le_bytes(total as nat, 8));
}

/// Reading the records goes on behind each of them, and ends where the file ends or all that are
/// counted were read.
pub proof fn law_records_read(
    rest: Seq<u8>,
    path: Seq<char>,
    record: IndexRecord,
    used: int,
    count: nat,
    stride: nat,
)
    ensures
        read_records(rest, 0, stride) == Some(Seq::<(Seq<char>, IndexRecord)>::empty()),
        rest.len() < 2 ==> read_records(rest, count, stride) == Some(
            Seq::<(Seq<char>, IndexRecord)>::empty(),
        ),
        read_record(rest, stride) == RecordRead::Record(path, record, used) && read_records(
            rest.skip(used),
            count,
            stride,
        ) is Some ==> read_records(rest, count + 1, stride) == Some(
            seq![(path, record)] + read_records(rest.skip(used), count, stride)->0,
        ),
{
}

/// How a record stands in the file.
pub proof fn law_record_layout(f: StoredFolder, offset: nat)
    ensures
        record_bytes(f, offset) == le_bytes(encode_utf8(f.path).len(), 2) + encode_utf8(f.path)
            + le_bytes(offset, 4) + le_bytes(f.block.len(), 4) + le_bytes(f.total as nat, 8),
        record_bytes(f, offset).len() == 18 + encode_utf8(f.path).len(),
{
    lemma_le_len(encode_utf8(f.path).len(), 2);
    lemma_le_len(offset, 4);
    lemma_le_len(f.block.len(), 4);
    lemma_le_len(f.total as nat, 8);
}

/// What an index file says is what its records say, as many as it counts; a file without a count and
/// one with a path that is no text say nothing.
pub proof fn law_index_read(data: Seq<u8>)
    ensures
        data.len() < 4 ==> index_map(data) == Map::<Seq<char>, IndexRecord>::empty() && index_order(
            data,
        ).len() == 0,
        data.len() >= 4 ==> ({
            let count = data[0] + 256 * data[1] + 65536 * data[2] + 16777216 * data[3];
            match read_records(data.skip(4), count as nat, 16) {
                Some(records) => index_map(data) == map_of(records) && index_order(data)
                    == put_in_order(records),
                None => index_map(data) == Map::<Seq<char>, IndexRecord>::empty() && index_order(
                    data,
                ).len() == 0,
            }
        }),
{
    if data.len() >= 4 {
        assert(data.subrange(0, 4) =~= seq![data[0], data[1], data[2], data[3]]);
        law_little_endian(0, data[0], data[1], data[2], data[3]);
    }
}

} // verus!
