//! A folder's listing as a compact block of bytes.
//!
//! A block is the number of entries in two bytes, then the entries. An entry is a flag byte (bit
//! 0: folder, bit 1: the high bit of the day), the link with its length in one byte, for a file the
//! size in five bytes, and the date in two: years since 2000, then month and the low four bits of
//! the day.

use crate::format::{binary_size, fmt_binary_size};
use crate::le::{
    law_little_endian, le_bytes, le_value, lemma_le_len, lemma_le_round_trip,
    lemma_le_value_bound, lemma_p256, push_le, read_le,
};
use crate::text::{
    concat3, decimal, digit, numeral, padded_numeral, text_of_bytes, trim_end_of, zero_padded,
};
use crate::url_text::{decoded, decoded_name, url_decode_name};
use vstd::prelude::*;
use vstd::slice::slice_subrange;
use vstd::utf8::{decode_utf8, encode_utf8, valid_utf8};

verus! {

/// One line of a folder's listing.
pub struct DirEntry {
    pub name: String,
    pub href: String,
    pub size: String,
    pub size_bytes: u64,
    pub date: String,
    pub is_folder: bool,
}

/// What a line of a listing says.
#[verifier::ext_equal]
pub struct DirRow {
    pub name: Seq<char>,
    pub href: Seq<char>,
    pub size: Seq<char>,
    pub size_bytes: u64,
    pub date: Seq<char>,
    pub is_folder: bool,
}

impl View for DirEntry {
    type V = DirRow;

    open spec fn view(&self) -> DirRow {
        DirRow {
            name: self.name@,
            href: self.href@,
            size: self.size@,
            size_bytes: self.size_bytes,
            date: self.date@,
            is_folder: self.is_folder,
        }
    }
}

impl Clone for DirEntry {
    fn clone(&self) -> (copy: Self)
        ensures
            copy == *self,
    {
        DirEntry {
            name: self.name.clone(),
            href: self.href.clone(),
            size: self.size.clone(),
            size_bytes: self.size_bytes,
            date: self.date.clone(),
            is_folder: self.is_folder,
        }
    }
}

/// What the lines of a listing say.
pub open spec fn rows(entries: Seq<DirEntry>) -> Seq<DirRow> {
    entries.map_values(|e: DirEntry| e@)
}

pub open spec fn at_most(n: nat, limit: nat) -> nat {
    if n < limit {
        n
    } else {
        limit
    }
}

// ── Dates ────────────────────────────────────────────────────────────────────
/// The number that the decimal digits among `bytes[offset .. offset + len]` write; other bytes
/// are passed over, and so is what lies past the end.
pub open spec fn digits_value(bytes: Seq<u8>, offset: nat, len: nat) -> nat
    decreases len,
{
    if len == 0 {
        0
    } else {
        let head = digits_value(bytes, offset, (len - 1) as nat);
        let i = offset + len - 1;
        if i < bytes.len() && 48 <= bytes[i] <= 57 {
            head * 10 + (bytes[i] - 48) as nat
        } else {
            head
        }
    }
}

/// 10 to the power `n`.
pub open spec fn p10(n: nat) -> nat
    decreases n,
{
    if n == 0 {
        1
    } else {
        10 * p10((n - 1) as nat)
    }
}

/// The number that the digits at `offset..offset + len` write.
pub fn parse_digits(b: &[u8], offset: usize, len: usize) -> (n: u32)
    requires
        len <= 9,
        offset + len <= usize::MAX,
    ensures
        n as nat == digits_value(b@, offset as nat, len as nat),
        (n as nat) < p10(len as nat),
{
    let mut n: u32 = 0;
    let mut i: usize = 0;
    while i < len
        invariant
            i <= len <= 9,
            offset + len <= usize::MAX,
            n as nat == digits_value(b@, offset as nat, i as nat),
            (n as nat) < p10(i as nat),
        decreases len - i,
    {
        proof {
            reveal_with_fuel(p10, 10);
            assert(p10((i + 1) as nat) == 10 * p10(i as nat));
            assert(p10(i as nat) <= 100_000_000);
        }
        if offset + i < b.len() {
            let c: u8 = b[offset + i];
            if 48 <= c && c <= 57 {
                n = n * 10 + (c - 48) as u32;
            }
        }
        i = i + 1;
    }
    n
}

/// Year since 2000, month and day of a date that starts `YYYY-MM-DD`, each cut to what its
/// field can count.
pub open spec fn packed_date(date: Seq<char>) -> (nat, nat, nat) {
    let b = encode_utf8(date);
    let year = digits_value(b, 0, 4);
    (
        at_most(if year < 2000 { 0 } else { (year - 2000) as nat }, 255),
        at_most(digits_value(b, 5, 2), 12),
        at_most(digits_value(b, 8, 2), 31),
    )
}

/// Year since 2000, month and day of a date that starts `YYYY-MM-DD`.
pub fn parse_date_compact(date: &str) -> (packed: (u8, u8, u8))
    ensures
        packed_date(date@) == (packed.0 as nat, packed.1 as nat, packed.2 as nat),
        packed.1 <= 12,
        packed.2 <= 31,
{
    let b = date.as_bytes();
    let y: u32 = parse_digits(b, 0, 4);
    let m: u32 = parse_digits(b, 5, 2);
    let d: u32 = parse_digits(b, 8, 2);
    let y: u32 = if y < 2000 { 0 } else { y - 2000 };
    let y: u32 = if y < 255 { y } else { 255 };
    let m: u32 = if m < 12 { m } else { 12 };
    let d: u32 = if d < 31 { d } else { 31 };
    (y as u8, m as u8, d as u8)
}

/// A date in the form `YYYY-MM-DD`.
pub open spec fn date_text(year: nat, month: nat, day: nat) -> Seq<char> {
    zero_padded(decimal(year), 4) + "-"@ + zero_padded(decimal(month), 2) + "-"@ + zero_padded(
        decimal(day),
        2,
    )
}

/// The two bytes that a date takes in a block, but for the high bit of its day.
pub open spec fn date_field(date: Seq<char>) -> Seq<u8> {
    let (y, m, d) = packed_date(date);
    seq![y as u8, (16 * m + d % 16) as u8]
}

/// The byte with which an entry begins: whether it is a folder, and the high bit of its day.
pub open spec fn flag_byte(is_folder: bool, date: Seq<char>) -> u8 {
    (2 * (packed_date(date).2 / 16) + if is_folder {
        1nat
    } else {
        0nat
    }) as u8
}

/// The date that the flag byte and the two date bytes of an entry show: none where month or day is
/// zero.
pub open spec fn unpacked_date(flags: u8, y: u8, md: u8) -> Seq<char> {
    let m = (md / 16) as nat;
    let d = (md % 16 + 16 * (flags / 2 % 2)) as nat;
    if m > 0 && d > 0 {
        date_text((2000 + y) as nat, m, d)
    } else {
        Seq::empty()
    }
}

fn unpack_date(flags: u8, y: u8, md: u8) -> (date: String)
    ensures
        date@ == unpacked_date(flags, y, md),
{
    let m: u8 = md / 16;
    let d: u8 = md % 16 + 16 * (flags / 2 % 2);
    if m > 0 && d > 0 {
        let year = padded_numeral(2000 + y as u64, 10, 4);
        let month = padded_numeral(m as u64, 10, 2);
        let day = padded_numeral(d as u64, 10, 2);
        let head = concat3(year.as_str(), "-", month.as_str());
        concat3(head.as_str(), "-", day.as_str())
    } else {
        String::new()
    }
}

// ── Writing ──────────────────────────────────────────────────────────────────
/// The bytes of a text that a text field holds: its first 255.
pub open spec fn field_bytes(bytes: Seq<u8>) -> Seq<u8> {
    bytes.take(at_most(bytes.len(), 255) as int)
}

/// A text field: length in one byte, then at most 255 bytes.
pub open spec fn str_field(bytes: Seq<u8>) -> Seq<u8> {
    seq![at_most(bytes.len(), 255) as u8] + field_bytes(bytes)
}

/// Appends a text field.
pub fn write_str_field(buf: &mut Vec<u8>, s: &str)
    ensures
        final(buf)@ == old(buf)@ + str_field(encode_utf8(s@)),
{
    let b = s.as_bytes();
    let len: usize = if b.len() < 255 { b.len() } else { 255 };
    buf.push(len as u8);
    let ghost head = buf@;
    let kept = slice_subrange(b, 0, len);
    buf.extend_from_slice(kept);
    assert(buf@ =~= old(buf)@ + str_field(encode_utf8(s@)));
}

/// The five bytes that a file's size takes: bits 32 to 39, then the low four bytes.
pub open spec fn size_field(n: u64) -> Seq<u8> {
    seq![((n as nat / 0x1_0000_0000) % 256) as u8] + le_bytes(n as nat % 0x1_0000_0000, 4)
}

/// The bytes of one entry.
pub open spec fn entry_bytes(e: DirRow) -> Seq<u8> {
    seq![flag_byte(e.is_folder, e.date)] + str_field(encode_utf8(e.href)) + (if e.is_folder {
        Seq::<u8>::empty()
    } else {
        size_field(e.size_bytes)
    }) + date_field(e.date)
}

/// The bytes of entries, one after the other.
pub open spec fn entries_bytes(list: Seq<DirRow>) -> Seq<u8>
    decreases list.len(),
{
    if list.len() == 0 {
        Seq::empty()
    } else {
        entry_bytes(list[0]) + entries_bytes(list.skip(1))
    }
}

/// How many entries a block holds of `n`.
pub open spec fn block_count(n: nat) -> nat {
    at_most(n, 65535)
}

/// The block that holds a listing: its first 65535 entries.
pub open spec fn block_bytes(list: Seq<DirRow>) -> Seq<u8> {
    le_bytes(block_count(list.len()), 2) + entries_bytes(list.take(block_count(list.len()) as int))
}

/// Appends the bytes of one entry that has the given link, size, date and kind.
pub fn push_entry(buf: &mut Vec<u8>, href: &str, size_bytes: u64, date: &str, is_folder: bool)
    ensures
        forall|e: DirRow|
            e.href == href@ && e.size_bytes == size_bytes && e.date == date@ && e.is_folder
                == is_folder ==> final(buf)@ == old(buf)@ + #[trigger] entry_bytes(e),
{
    let (dy, dm, dd) = parse_date_compact(date);
    let kind: u8 = if is_folder { 1 } else { 0 };
    buf.push(2 * (dd / 16) + kind);
    write_str_field(buf, href);
    if !is_folder {
        buf.push((size_bytes / 0x1_0000_0000 % 256) as u8);
        push_le(buf, size_bytes % 0x1_0000_0000, 4);
    }
    buf.push(dy);
    buf.push(16 * dm + dd % 16);
    proof {
        assert forall|e: DirRow|
            e.href == href@ && e.size_bytes == size_bytes && e.date == date@ && e.is_folder
                == is_folder implies buf@ == old(buf)@ + #[trigger] entry_bytes(e) by {
            assert(buf@ =~= old(buf)@ + entry_bytes(e));
        }
    }
}

/// The block that holds the listing.
pub fn encode_block(entries: &Vec<DirEntry>) -> (buf: Vec<u8>)
    ensures
        buf@ == block_bytes(rows(entries@)),
{
    let mut buf: Vec<u8> = Vec::new();
    let num: usize = if entries.len() < 65535 { entries.len() } else { 65535 };
    push_le(&mut buf, num as u64, 2);
    let ghost list = rows(entries@).take(num as int);
    assert(list.skip(0) =~= list);
    assert(buf@ + entries_bytes(list.skip(0)) =~= block_bytes(rows(entries@)));
    let mut i: usize = 0;
    while i < num
        invariant
            i <= num <= entries@.len(),
            list == rows(entries@).take(num as int),
            buf@ + entries_bytes(list.skip(i as int)) == block_bytes(rows(entries@)),
        decreases num - i,
    {
        let e = &entries[i];
        let ghost before = buf@;
        push_entry(&mut buf, e.href.as_str(), e.size_bytes, e.date.as_str(), e.is_folder);
        proof {
            assert(list[i as int] == e@);
            assert(buf@ == before + entry_bytes(e@));
            assert(list.skip(i as int).skip(1) =~= list.skip(i + 1));
            assert(buf@ + entries_bytes(list.skip(i + 1)) =~= before + entries_bytes(
                list.skip(i as int),
            ));
        }
        i = i + 1;
    }
    assert(list.skip(num as int) =~= Seq::<DirRow>::empty());
    assert(buf@ + entries_bytes(list.skip(num as int)) =~= buf@);
    buf
}

// ── Reading ──────────────────────────────────────────────────────────────────
/// What stands at the front of the entries that are still to read.
pub enum RowRead {
    /// The entry is cut off after its link: what came before it counts.
    Cut,
    /// The link is cut off or is not UTF-8: the block does not count.
    Bad,
    /// An entry, and how many bytes it took.
    Row(DirRow, int),
}

/// The line that a listing shows for a link, a size, a date and a kind.
pub open spec fn row_of(
    href: Seq<char>,
    size_bytes: u64,
    date: Seq<char>,
    is_folder: bool,
) -> DirRow {
    DirRow {
        name: decoded_name(href),
        href,
        size: if size_bytes > 0 {
            binary_size(size_bytes as nat)
        } else {
            Seq::empty()
        },
        size_bytes,
        date,
        is_folder,
    }
}

/// Reads one entry from the front of `rest`, which is not empty.
pub open spec fn read_row(rest: Seq<u8>) -> RowRead {
    let folder = rest[0] % 2 == 1;
    if rest.len() < 2 || 2 + rest[1] > rest.len() {
        RowRead::Bad
    } else {
        let p = 2 + rest[1];
        let link = rest.subrange(2, p);
        if !valid_utf8(link) {
            RowRead::Bad
        } else if !folder && p + 5 > rest.len() {
            RowRead::Cut
        } else {
            let size_bytes = if folder {
                0
            } else {
                rest[p] * 0x1_0000_0000 + le_value(rest.subrange(p + 1, p + 5))
            };
            let q = if folder {
                p
            } else {
                p + 5
            };
            if q + 2 <= rest.len() {
                RowRead::Row(
                    row_of(
                        decode_utf8(link),
                        size_bytes as u64,
                        unpacked_date(rest[0], rest[q], rest[q + 1]),
                        folder,
                    ),
                    q + 2,
                )
            } else {
                RowRead::Row(row_of(decode_utf8(link), size_bytes as u64, Seq::empty(), folder), q)
            }
        }
    }
}

/// Reads up to `n` entries.
pub open spec fn read_rows(rest: Seq<u8>, n: nat) -> Option<Seq<DirRow>>
    decreases n,
{
    if n == 0 || rest.len() == 0 {
        Some(Seq::empty())
    } else {
        match read_row(rest) {
            RowRead::Bad => None,
            RowRead::Cut => Some(Seq::empty()),
            RowRead::Row(row, used) => match read_rows(rest.skip(used), (n - 1) as nat) {
                Some(tail) => Some(seq![row] + tail),
                None => None,
            },
        }
    }
}

/// The listing that a block holds; `None` where a link of it cannot be read.
pub open spec fn block_rows(data: Seq<u8>) -> Option<Seq<DirRow>> {
    if data.len() < 2 {
        Some(Seq::empty())
    } else {
        read_rows(data.skip(2), le_value(data.subrange(0, 2)))
    }
}

/// Reads a text field at `pos` and moves `pos` past it. Where the field cannot be read, `pos` moves
/// past its length byte, if there is one.
pub fn read_str(data: &[u8], pos: &mut usize) -> (text: Option<String>)
    ensures
        match text {
            Some(t) => {
                let n = data@[*old(pos) as int] as int;
                &&& *old(pos) < data@.len()
                &&& *final(pos) == *old(pos) + 1 + n <= data@.len()
                &&& valid_utf8(data@.subrange(*old(pos) + 1, *final(pos) as int))
                &&& t@ == decode_utf8(data@.subrange(*old(pos) + 1, *final(pos) as int))
            },
            None => {
                &&& *old(pos) >= data@.len() || *old(pos) + 1 + data@[*old(pos) as int]
                    > data@.len() || !valid_utf8(
                    data@.subrange(*old(pos) + 1, *old(pos) + 1 + data@[*old(pos) as int]),
                )
                &&& *final(pos) == if *old(pos) < data@.len() {
                    *old(pos) + 1
                } else {
                    *old(pos) as int
                }
            },
        },
{
    let end: usize = data.len();
    let start: usize = *pos;
    if start >= end {
        return None;
    }
    let len: usize = data[start] as usize;
    *pos = start + 1;
    if len > end - (start + 1) {
        return None;
    }
    let s = text_of_bytes(slice_subrange(data, start + 1, start + 1 + len));
    if s.is_some() {
        *pos = start + 1 + len;
    }
    s
}

/// An entry read from the front of a block's rest, as far as it could be read.
enum ParsedRow {
    Cut,
    Bad,
    Row(DirEntry, usize),
}

/// Reads one entry at `start`.
fn parse_row(data: &[u8], start: usize) -> (out: ParsedRow)
    requires
        start < data@.len(),
    ensures
        match out {
            ParsedRow::Cut => read_row(data@.skip(start as int)) is Cut,
            ParsedRow::Bad => read_row(data@.skip(start as int)) is Bad,
            ParsedRow::Row(e, end) => {
                &&& start < end <= data@.len()
                &&& read_row(data@.skip(start as int)) == RowRead::Row(e@, end - start)
            },
        },
{
    let end: usize = data.len();
    let ghost rest = data@.skip(start as int);
    let flags: u8 = data[start];
    let is_folder: bool = flags % 2 == 1;
    let mut pos: usize = start + 1;
    let href = match read_str(data, &mut pos) {
        Some(h) => h,
        None => {
            proof {
                if start + 1 < end {
                    assert(rest[1] == data@[start + 1]);
                    if 2 + rest[1] <= rest.len() {
                        assert(rest.subrange(2, 2 + rest[1]) =~= data@.subrange(
                            start + 2,
                            start + 2 + data@[start + 1],
                        ));
                    }
                }
            }
            return ParsedRow::Bad;
        },
    };
    let ghost p = 2 + rest[1];
    assert(rest[1] == data@[start + 1]);
    assert(rest.subrange(2, p) =~= data@.subrange(start + 2, pos as int));
    let name = url_decode_name(href.as_str());
    let mut size_bytes: u64 = 0;
    if !is_folder {
        if end - pos < 5 {
            return ParsedRow::Cut;
        }
        let hi: u64 = data[pos] as u64;
        proof {
            lemma_p256();
        }
        let lo: u64 = read_le(data, pos + 1, 4);
        proof {
            assert(rest[p] == data@[pos as int]);
            assert(rest.subrange(p + 1, p + 5) =~= data@.subrange(pos + 1, pos + 5));
            lemma_le_value_bound(rest.subrange(p + 1, p + 5));
        }
        size_bytes = hi * 0x1_0000_0000 + lo;
        pos = pos + 5;
    }
    let size = if size_bytes > 0 {
        fmt_binary_size(size_bytes)
    } else {
        String::new()
    };
    let ghost q = pos - start;
    let date = if end - pos >= 2 {
        let y: u8 = data[pos];
        let md: u8 = data[pos + 1];
        assert(rest[q] == y && rest[q + 1] == md);
        pos = pos + 2;
        unpack_date(flags, y, md)
    } else {
        String::new()
    };
    let entry = DirEntry { name, href, size, size_bytes, date, is_folder };
    assert(read_row(rest) matches RowRead::Row(r, used) && r =~= entry@ && used == pos - start);
    ParsedRow::Row(entry, pos)
}

/// The listing that a block holds.
pub fn parse_block(data: &[u8]) -> (entries: Option<Vec<DirEntry>>)
    ensures
        match entries {
            Some(list) => block_rows(data@) == Some(rows(list@)),
            None => block_rows(data@) is None,
        },
{
    let end: usize = data.len();
    let mut entries: Vec<DirEntry> = Vec::new();
    assert(rows(entries@) =~= Seq::<DirRow>::empty());
    if end < 2 {
        return Some(entries);
    }
    proof {
        lemma_p256();
    }
    let num: usize = read_le(data, 0, 2) as usize;
    let mut pos: usize = 2;
    let mut i: usize = 0;
    let ghost whole = block_rows(data@);
    proof {
        lemma_le_value_bound(data@.subrange(0, 2));
        if let Some(tail) = whole {
            assert(rows(entries@) + tail =~= tail);
        }
    }
    while i < num && pos < end
        invariant
            i <= num,
            2 <= pos <= end == data@.len(),
            whole == block_rows(data@),
            match read_rows(data@.skip(pos as int), (num - i) as nat) {
                Some(tail) => whole == Some(rows(entries@) + tail),
                None => whole is None,
            },
        decreases num - i,
    {
        let ghost rest = data@.skip(pos as int);
        match parse_row(data, pos) {
            ParsedRow::Bad => {
                return None;
            },
            ParsedRow::Cut => {
                assert(rows(entries@) + Seq::<DirRow>::empty() =~= rows(entries@));
                return Some(entries);
            },
            ParsedRow::Row(entry, next) => {
                let ghost before = rows(entries@);
                let ghost row = entry@;
                entries.push(entry);
                proof {
                    assert(rest.skip(next - pos) =~= data@.skip(next as int));
                    assert(rows(entries@) =~= before.push(row));
                    match read_rows(data@.skip(next as int), (num - i - 1) as nat) {
                        Some(tail) => {
                            assert(before + (seq![row] + tail) =~= rows(entries@) + tail);
                        },
                        None => {},
                    }
                }
                pos = next;
            },
        }
        i = i + 1;
    }
    proof {
        assert(rows(entries@) + Seq::<DirRow>::empty() =~= rows(entries@));
    }
    Some(entries)
}

// ── What comes back ──────────────────────────────────────────────────────────
/// A link that its field holds without cutting a character in two.
pub open spec fn storable(href: Seq<char>) -> bool {
    valid_utf8(field_bytes(encode_utf8(href)))
}

/// A line as it comes back from a block: name and size are derived anew, the size has 40 bits, the
/// date is as far as its bytes hold it.
pub open spec fn stored(e: DirRow) -> DirRow {
    let size_bytes = if e.is_folder {
        0
    } else {
        e.size_bytes as nat % 0x100_0000_0000
    };
    row_of(
        decode_utf8(field_bytes(encode_utf8(e.href))),
        size_bytes as u64,
        kept_date(e),
        e.is_folder,
    )
}

/// The date of a line as it comes back from a block.
pub open spec fn kept_date(e: DirRow) -> Seq<char> {
    unpacked_date(flag_byte(e.is_folder, e.date), date_field(e.date)[0], date_field(e.date)[1])
}

proof fn lemma_entry_parts(e: DirRow, tail: Seq<u8>)
    ensures
        ({
            let link = field_bytes(encode_utf8(e.href));
            let rest = entry_bytes(e) + tail;
            let p = 2 + link.len() as int;
            let q = if e.is_folder {
                p
            } else {
                p + 5
            };
            &&& link.len() <= 255
            &&& entry_bytes(e).len() == q + 2
            &&& rest.len() == q + 2 + tail.len()
            &&& rest[0] == flag_byte(e.is_folder, e.date)
            &&& rest[0] % 2 == if e.is_folder { 1u8 } else { 0u8 }
            &&& rest[1] == link.len()
            &&& rest.subrange(2, p) == link
            &&& !e.is_folder ==> rest.subrange(p, p + 5) == size_field(e.size_bytes)
            &&& rest[q] == date_field(e.date)[0]
            &&& rest[q + 1] == date_field(e.date)[1]
        }),
{
    let link = field_bytes(encode_utf8(e.href));
    let flag = seq![flag_byte(e.is_folder, e.date)];
    let head = flag + str_field(encode_utf8(e.href));
    let p = 2 + link.len() as int;
    assert(head.len() == p);
    let mid = if e.is_folder {
        Seq::<u8>::empty()
    } else {
        size_field(e.size_bytes)
    };
    lemma_le_len(e.size_bytes as nat % 0x1_0000_0000, 4);
    let dates = date_field(e.date);
    let rest = entry_bytes(e) + tail;
    assert(rest =~= head + (mid + (dates + tail)));
    assert(rest.subrange(2, p) =~= link) by {
        assert(head.subrange(2, p) =~= link);
    }
    assert(!e.is_folder ==> rest.subrange(p, p + 5) =~= mid);
}

proof fn lemma_read_entry(e: DirRow, tail: Seq<u8>)
    ensures
        storable(e.href) ==> read_row(entry_bytes(e) + tail) == RowRead::Row(
            stored(e),
            entry_bytes(e).len() as int,
        ),
        !storable(e.href) ==> read_row(entry_bytes(e) + tail) is Bad,
        entry_bytes(e).len() > 0,
{
    lemma_entry_parts(e, tail);
    let link = field_bytes(encode_utf8(e.href));
    let rest = entry_bytes(e) + tail;
    let p = 2 + link.len() as int;
    if !e.is_folder {
        let n = e.size_bytes as nat;
        let lo = n % 0x1_0000_0000;
        lemma_p256();
        lemma_le_round_trip(lo, 4);
        let field = size_field(e.size_bytes);
        assert(rest[p] == field[0]) by {
            assert(rest.subrange(p, p + 5)[0] == rest[p]);
        }
        assert(rest.subrange(p + 1, p + 5) =~= field.subrange(1, 5)) by {
            assert(rest.subrange(p, p + 5).subrange(1, 5) =~= rest.subrange(p + 1, p + 5));
        }
        assert(field.subrange(1, 5) =~= le_bytes(lo, 4));
        assert(((n / 0x1_0000_0000) % 256) * 0x1_0000_0000 + lo == n % 0x100_0000_0000);
    }
}

proof fn lemma_read_entries(list: Seq<DirRow>)
    requires
        forall|i: int| 0 <= i < list.len() ==> storable((#[trigger] list[i]).href),
    ensures
        read_rows(entries_bytes(list), list.len()) == Some(list.map_values(|e: DirRow| stored(e))),
    decreases list.len(),
{
    let back = list.map_values(|e: DirRow| stored(e));
    if list.len() == 0 {
        assert(back =~= Seq::<DirRow>::empty());
    } else {
        let tail = list.skip(1);
        assert forall|i: int| 0 <= i < tail.len() implies storable((#[trigger] tail[i]).href) by {
            assert(tail[i] == list[i + 1]);
        }
        lemma_read_entries(tail);
        lemma_read_entry(list[0], entries_bytes(tail));
        let whole = entries_bytes(list);
        assert(whole.skip(entry_bytes(list[0]).len() as int) =~= entries_bytes(tail));
        assert(seq![stored(list[0])] + tail.map_values(|e: DirRow| stored(e)) =~= back);
    }
}

proof fn lemma_read_with_tail(list: Seq<DirRow>, tail: Seq<u8>)
    ensures
        read_rows(entries_bytes(list) + tail, list.len()) == read_rows(
            entries_bytes(list),
            list.len(),
        ),
    decreases list.len(),
{
    if list.len() > 0 {
        let e = list[0];
        let more = entries_bytes(list.skip(1));
        let used = entry_bytes(e).len() as int;
        lemma_read_with_tail(list.skip(1), tail);
        lemma_read_entry(e, more);
        lemma_read_entry(e, more + tail);
        assert(entries_bytes(list) + tail =~= entry_bytes(e) + (more + tail));
        assert((entries_bytes(list) + tail).skip(used) =~= more + tail);
        assert(entries_bytes(list).skip(used) =~= more);
    }
}

/// What stands after a block changes nothing of what is read.
pub proof fn law_bytes_after_block(list: Seq<DirRow>, tail: Seq<u8>)
    ensures
        block_rows(block_bytes(list) + tail) == block_rows(block_bytes(list)),
{
    let n = block_count(list.len());
    let kept = list.take(n as int);
    lemma_p256();
    lemma_le_round_trip(n, 2);
    let data = block_bytes(list);
    assert(data.subrange(0, 2) =~= le_bytes(n, 2));
    assert((data + tail).subrange(0, 2) =~= le_bytes(n, 2));
    assert(data.skip(2) =~= entries_bytes(kept));
    assert((data + tail).skip(2) =~= entries_bytes(kept) + tail);
    lemma_read_with_tail(kept, tail);
}

/// What a block gives back of a listing: its first 65535 lines, each as it is stored.
pub proof fn law_block_round_trip(list: Seq<DirRow>)
    requires
        forall|i: int|
            0 <= i < block_count(list.len()) ==> storable((#[trigger] list[i]).href),
    ensures
        block_rows(block_bytes(list)) == Some(
            list.take(block_count(list.len()) as int).map_values(|e: DirRow| stored(e)),
        ),
{
    let n = block_count(list.len());
    let kept = list.take(n as int);
    lemma_p256();
    lemma_le_round_trip(n, 2);
    let data = block_bytes(list);
    assert(data.subrange(0, 2) =~= le_bytes(n, 2));
    assert(data.skip(2) =~= entries_bytes(kept));
    assert forall|i: int| 0 <= i < kept.len() implies storable((#[trigger] kept[i]).href) by {
        assert(kept[i] == list[i]);
    }
    lemma_read_entries(kept);
}

/// A link of at most 255 bytes comes back as it was.
pub proof fn law_short_link_kept(e: DirRow)
    requires
        encode_utf8(e.href).len() <= 255,
    ensures
        storable(e.href),
        stored(e).href == e.href,
        stored(e).is_folder == e.is_folder,
        stored(e).name == decoded_name(e.href),
{
    let b = encode_utf8(e.href);
    assert(field_bytes(b) =~= b);
    vstd::utf8::encode_utf8_valid_utf8(e.href);
    vstd::utf8::encode_utf8_decode_utf8(e.href);
}

/// A file's size below 2^40 comes back as it was, and is shown in binary units.
pub proof fn law_size_kept(e: DirRow)
    requires
        !e.is_folder,
        e.size_bytes < 0x100_0000_0000,
    ensures
        stored(e).size_bytes == e.size_bytes,
        stored(e).size == if e.size_bytes > 0 {
            binary_size(e.size_bytes as nat)
        } else {
            Seq::empty()
        },
{
}

proof fn lemma_two_digits(n: nat)
    requires
        n < 100,
    ensures
        zero_padded(decimal(n), 2) == seq![digit((n / 10) as int), digit((n % 10) as int)],
{
    reveal_with_fuel(numeral, 3);
    assert(zero_padded(decimal(n), 2) =~= seq![digit((n / 10) as int), digit((n % 10) as int)]);
}

proof fn lemma_four_digits(n: nat)
    requires
        1000 <= n < 10000,
    ensures
        zero_padded(decimal(n), 4) == seq![
            digit((n / 1000) as int),
            digit((n / 100 % 10) as int),
            digit((n / 10 % 10) as int),
            digit((n % 10) as int),
        ],
{
    reveal_with_fuel(numeral, 5);
    assert(zero_padded(decimal(n), 4) =~= seq![
        digit((n / 1000) as int),
        digit((n / 100 % 10) as int),
        digit((n / 10 % 10) as int),
        digit((n % 10) as int),
    ]);
}

/// A date of the years 2000 to 2255 comes back as it was, of a file and of a folder.
pub proof fn law_date_kept(e: DirRow, year: nat, month: nat, day: nat)
    requires
        2000 <= year <= 2255,
        1 <= month <= 12,
        1 <= day <= 31,
        e.date == date_text(year, month, day),
    ensures
        stored(e).date == e.date,
{
    let date = date_text(year, month, day);
    lemma_packed(year, month, day, Seq::empty());
    assert(date + Seq::<char>::empty() =~= date);
    assert(flag_byte(e.is_folder, date) / 2 % 2 == day / 16);
}

proof fn lemma_decimal_digit(d: int)
    requires
        0 <= d < 10,
    ensures
        digit(d) == "0123456789"@[d],
{
    reveal_strlit("0123456789");
}

/// A date is written as its year, month and day with dashes between them, in four, two and two
/// digits.
pub proof fn law_date_text(year: nat, month: nat, day: nat)
    requires
        1000 <= year < 10000,
        month < 100,
        day < 100,
    ensures
        date_text(year, month, day) == seq![
            "0123456789"@[year as int / 1000],
            "0123456789"@[year as int / 100 % 10],
            "0123456789"@[year as int / 10 % 10],
            "0123456789"@[year as int % 10],
            '-',
            "0123456789"@[month as int / 10],
            "0123456789"@[month as int % 10],
            '-',
            "0123456789"@[day as int / 10],
            "0123456789"@[day as int % 10],
        ],
{
    reveal_strlit("-");
    lemma_four_digits(year);
    lemma_two_digits(month);
    lemma_two_digits(day);
    lemma_decimal_digit(year as int / 1000);
    lemma_decimal_digit(year as int / 100 % 10);
    lemma_decimal_digit(year as int / 10 % 10);
    lemma_decimal_digit(year as int % 10);
    lemma_decimal_digit(month as int / 10);
    lemma_decimal_digit(month as int % 10);
    lemma_decimal_digit(day as int / 10);
    lemma_decimal_digit(day as int % 10);
    assert(date_text(year, month, day) =~= seq![
        "0123456789"@[year as int / 1000],
        "0123456789"@[year as int / 100 % 10],
        "0123456789"@[year as int / 10 % 10],
        "0123456789"@[year as int % 10],
        '-',
        "0123456789"@[month as int / 10],
        "0123456789"@[month as int % 10],
        '-',
        "0123456789"@[day as int / 10],
        "0123456789"@[day as int % 10],
    ]);
}

/// A line that a block can hold whole: its link has at most 255 bytes, its size is below 2^40, and
/// its date is none or a day of the years 2000 to 2255.
pub open spec fn fits_block(e: DirRow) -> bool {
    &&& encode_utf8(e.href).len() <= 255
    &&& e.size_bytes < 0x100_0000_0000
    &&& e.date.len() == 0 || exists|year: nat, month: nat, day: nat|
        2000 <= year <= 2255 && 1 <= month <= 12 && 1 <= day <= 31 && e.date == #[trigger] date_text(
            year,
            month,
            day,
        )
}

proof fn lemma_no_date(e: DirRow)
    requires
        e.date.len() == 0,
    ensures
        stored(e).date == e.date,
{
    reveal_with_fuel(digits_value, 5);
    assert(e.date =~= Seq::<char>::empty());
    assert(encode_utf8(e.date).len() == 0);
}

/// What a block gives back of a listing is the listing: every line with its link, the name that the
/// link shows, its date, and a file with its size; a folder has none.
pub proof fn law_lines_come_back(list: Seq<DirRow>, i: int)
    requires
        list.len() <= 65535,
        forall|k: int| 0 <= k < list.len() ==> fits_block(#[trigger] list[k]),
        0 <= i < list.len(),
    ensures
        block_rows(block_bytes(list)) is Some,
        ({
            let back = block_rows(block_bytes(list))->0;
            &&& back.len() == list.len()
            &&& back[i].href == list[i].href
            &&& back[i].name == decoded(trim_end_of(list[i].href, '/'))
            &&& back[i].date == list[i].date
            &&& back[i].is_folder == list[i].is_folder
            &&& back[i].size_bytes == (if list[i].is_folder {
                0
            } else {
                list[i].size_bytes
            })
            &&& back[i].size_bytes == 0 ==> back[i].size.len() == 0
            &&& back[i].size_bytes > 0 ==> back[i].size == binary_size(list[i].size_bytes as nat)
        }),
{
    assert forall|k: int| 0 <= k < block_count(list.len()) implies storable(
        (#[trigger] list[k]).href,
    ) by {
        assert(fits_block(list[k]));
        law_short_link_kept(list[k]);
    }
    law_block_round_trip(list);
    let e = list[i];
    assert(fits_block(e));
    law_short_link_kept(e);
    if !e.is_folder {
        law_size_kept(e);
    }
    if e.date.len() == 0 {
        lemma_no_date(e);
    } else {
        let (year, month, day) = choose|year: nat, month: nat, day: nat|
            2000 <= year <= 2255 && 1 <= month <= 12 && 1 <= day <= 31 && e.date
                == #[trigger] date_text(year, month, day);
        law_date_kept(e, year, month, day);
    }
}

/// How a line stands in a block: a byte whose lowest bit marks a folder, the link behind its length,
/// a file's size in five bytes, the highest first and then the other four from the low end, and the
/// date in two.
pub proof fn law_entry_layout(e: DirRow, year: nat, month: nat, day: nat)
    requires
        encode_utf8(e.href).len() <= 255,
        e.size_bytes < 0x100_0000_0000,
        2000 <= year <= 2255,
        1 <= month <= 12,
        1 <= day <= 31,
        e.date == date_text(year, month, day),
    ensures
        ({
            let b = entry_bytes(e);
            let link = encode_utf8(e.href);
            let at = 2 + link.len() as int;
            &&& b.len() == (if e.is_folder {
                at + 2
            } else {
                at + 7
            })
            &&& b[0] == (if e.is_folder {
                1
            } else {
                0int
            }) + 2 * (day as int / 16)
            &&& b[1] == link.len()
            &&& b.subrange(2, at) == link
            &&& !e.is_folder ==> e.size_bytes == b[at] * 0x1_0000_0000 + b[at + 1] + b[at
                + 2] * 0x100 + b[at + 3] * 0x1_0000 + b[at + 4] * 0x100_0000
            &&& b[b.len() - 2] == year - 2000
            &&& b[b.len() - 1] == month * 16 + day % 16
        }),
{
    let b = entry_bytes(e);
    let link = encode_utf8(e.href);
    let at = 2 + link.len() as int;
    lemma_packed(year, month, day, Seq::empty());
    assert(e.date + Seq::<char>::empty() =~= e.date);
    assert(field_bytes(link) =~= link);
    lemma_le_len(e.size_bytes as nat % 0x1_0000_0000, 4);
    assert(b.subrange(2, at) =~= link);
    if !e.is_folder {
        let low = e.size_bytes as nat % 0x1_0000_0000;
        law_little_endian(low, 0, 0, 0, 0);
        assert(low == low % 256 + low / 256 % 256 * 0x100 + low / 65536 % 256 * 0x1_0000 + low
            / 16777216 * 0x100_0000);
        assert(b[at] == e.size_bytes as nat / 0x1_0000_0000);
    }
}

proof fn lemma_encode_concat(a: Seq<char>, b: Seq<char>)
    ensures
        encode_utf8(a + b) == encode_utf8(a) + encode_utf8(b),
    decreases a.len(),
{
    let all = a + b;
    if a.len() == 0 {
        assert(all =~= b);
        assert(encode_utf8(a) + encode_utf8(b) =~= encode_utf8(b));
    } else {
        lemma_encode_concat(a.drop_first(), b);
        assert(all.drop_first() =~= a.drop_first() + b);
        assert(all[0] == a[0]);
        assert(encode_utf8(all) =~= encode_utf8(a) + encode_utf8(b));
    }
}

proof fn lemma_packed(year: nat, month: nat, day: nat, rest: Seq<char>)
    requires
        2000 <= year <= 2255,
        1 <= month <= 12,
        1 <= day <= 31,
    ensures
        packed_date(date_text(year, month, day) + rest) == ((year - 2000) as nat, month, day),
{
    let date = date_text(year, month, day);
    reveal_strlit("-");
    lemma_four_digits(year);
    lemma_two_digits(month);
    lemma_two_digits(day);
    assert(date.len() == 10);
    assert(vstd::utf8::is_ascii_chars(date));
    vstd::utf8::is_ascii_chars_encode_utf8(date);
    lemma_encode_concat(date, rest);
    let head = encode_utf8(date);
    let b = encode_utf8(date + rest);
    assert(head.len() == 10);
    assert forall|i: int| 0 <= i < 10 implies b[i] == head[i] by {}
    assert(b[0] == 48 + year / 1000 && b[1] == 48 + year / 100 % 10 && b[2] == 48 + year / 10 % 10
        && b[3] == 48 + year % 10);
    assert(b[5] == 48 + month / 10 && b[6] == 48 + month % 10);
    assert(b[8] == 48 + day / 10 && b[9] == 48 + day % 10);
    reveal_with_fuel(digits_value, 5);
    assert(digits_value(b, 0, 4) == year);
    assert(digits_value(b, 5, 2) == month);
    assert(digits_value(b, 8, 2) == day);
}

/// Of a date with a time behind it, as the server writes it, the date comes back.
pub proof fn law_time_dropped(e: DirRow, year: nat, month: nat, day: nat, time: Seq<char>)
    requires
        2000 <= year <= 2255,
        1 <= month <= 12,
        1 <= day <= 31,
        e.date == date_text(year, month, day) + time,
    ensures
        stored(e).date == date_text(year, month, day),
        entry_bytes(e) == entry_bytes(DirRow { date: date_text(year, month, day), ..e }),
{
    let date = date_text(year, month, day);
    let none = Seq::<char>::empty();
    lemma_packed(year, month, day, time);
    lemma_packed(year, month, day, none);
    assert(date + none =~= date);
    assert(flag_byte(e.is_folder, e.date) / 2 % 2 == day / 16);
}

/// A block is the number of its lines, in two bytes from the low end, and then the lines one after
/// the other.
pub proof fn law_block_layout(list: Seq<DirRow>, e: DirRow)
    requires
        list.len() < 65535,
    ensures
        block_bytes(Seq::empty()) == seq![0u8, 0u8],
        block_bytes(list.push(e)).subrange(0, 2) == seq![
            ((list.len() + 1) % 256) as u8,
            ((list.len() + 1) / 256) as u8,
        ],
        block_bytes(list.push(e)).skip(2) == block_bytes(list).skip(2) + entry_bytes(e),
{
    let more = list.push(e);
    law_little_endian(more.len(), 0, 0, 0, 0);
    law_little_endian(list.len(), 0, 0, 0, 0);
    law_little_endian(0, 0, 0, 0, 0);
    assert(list.take(list.len() as int) =~= list);
    assert(more.take(more.len() as int) =~= more);
    let none = Seq::<DirRow>::empty();
    assert(none.take(0) =~= none);
    assert(block_bytes(none) =~= seq![0u8, 0u8]);
    lemma_entries_push(list, e);
    assert(block_bytes(more).subrange(0, 2) =~= le_bytes(more.len(), 2));
    assert(block_bytes(more).skip(2) =~= block_bytes(list).skip(2) + entry_bytes(e));
}

proof fn lemma_entries_push(list: Seq<DirRow>, e: DirRow)
    ensures
        entries_bytes(list.push(e)) == entries_bytes(list) + entry_bytes(e),
    decreases list.len(),
{
    if list.len() > 0 {
        lemma_entries_push(list.skip(1), e);
        assert(list.push(e).skip(1) =~= list.skip(1).push(e));
        assert(entries_bytes(list.push(e)) =~= entries_bytes(list) + entry_bytes(e));
    } else {
        let none = Seq::<DirRow>::empty();
        assert(list.push(e).skip(1) =~= none);
        assert(list =~= none);
        assert(entries_bytes(none) =~= Seq::<u8>::empty());
        assert(entries_bytes(list.push(e)) =~= entries_bytes(list) + entry_bytes(e));
    }
}

/// A block without room for a count has no lines, and a count of none has none either.
pub proof fn law_no_lines(a: u8, rest: Seq<u8>)
    ensures
        block_rows(Seq::empty()) == Some(Seq::<DirRow>::empty()),
        block_rows(seq![a]) == Some(Seq::<DirRow>::empty()),
        block_rows(seq![0u8, 0u8] + rest) == Some(Seq::<DirRow>::empty()),
{
    let data = seq![0u8, 0u8] + rest;
    law_little_endian(0, 0, 0, 0, 0);
    assert(data.subrange(0, 2) =~= seq![0u8, 0u8]);
}

/// What is said of a line is what stands in it.
pub proof fn law_entry_fields(e: DirEntry)
    ensures
        e@.name == e.name@ && e@.href == e.href@ && e@.size == e.size@ && e@.date == e.date@
            && e@.size_bytes == e.size_bytes && e@.is_folder == e.is_folder,
{
}

/// A block that ends behind a folder's link has the folder without a date; one that ends inside a
/// link cannot be read.
pub proof fn law_cut_block(href: Seq<char>, claimed: u8)
    requires
        encode_utf8(href).len() <= 255,
    ensures
        ({
            let link = encode_utf8(href);
            let data = seq![1u8, 0u8, 1u8, link.len() as u8] + link;
            &&& block_rows(data) is Some
            &&& block_rows(data)->0.len() == 1
            &&& block_rows(data)->0[0].href == href
            &&& block_rows(data)->0[0].is_folder
            &&& block_rows(data)->0[0].date.len() == 0
            &&& claimed > link.len() ==> block_rows(seq![1u8, 0u8, 1u8, claimed] + link) is None
        }),
{
    let link = encode_utf8(href);
    let data = seq![1u8, 0u8, 1u8, link.len() as u8] + link;
    let short = seq![1u8, 0u8, 1u8, claimed] + link;
    law_little_endian(0, 1, 0, 0, 0);
    assert(data.subrange(0, 2) =~= seq![1u8, 0u8]);
    assert(short.subrange(0, 2) =~= seq![1u8, 0u8]);
    let rest = data.skip(2);
    assert(rest.len() == 2 + link.len());
    assert(rest[0] == 1 && rest[1] == link.len());
    assert(rest.subrange(2, 2 + link.len() as int) =~= link);
    vstd::utf8::encode_utf8_valid_utf8(href);
    vstd::utf8::encode_utf8_decode_utf8(href);
    reveal_with_fuel(read_rows, 2);
    assert(short.skip(2)[1] == claimed && short.skip(2).len() == 2 + link.len());
}

} // verus!
