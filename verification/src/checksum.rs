//! Checking a downloaded file against the checksum that stands beside it on the server.

use crate::outside::{md5_digest, md5_of};
use crate::text::{
    chars_of, concat, digit, digits_value, law_digit, law_numeral, law_zero_padded, lowercase,
    numeral, padded_numeral, same_text, split_char, split_on, split_words, texts, to_lower, trim,
    trim_end_of, trim_end_slashes, trimmed, words, zero_padded,
};
use vstd::prelude::*;
use vstd::utf8::encode_utf8;

verus! {

// ── CRC-32 ───────────────────────────────────────────────────────────────────
/// One bit of the division by the polynomial 0x04C11DB7, all with the least significant bit first.
pub open spec fn crc_bit(crc: u32) -> u32 {
    if crc & 1 != 0 {
        (crc >> 1) ^ 0xEDB8_8320
    } else {
        crc >> 1
    }
}

/// `n` bits of the division.
pub open spec fn crc_bits(crc: u32, n: nat) -> u32
    decreases n,
{
    if n == 0 {
        crc
    } else {
        crc_bit(crc_bits(crc, (n - 1) as nat))
    }
}

/// The remainder after the bytes, before the last inversion.
pub open spec fn crc_remainder(data: Seq<u8>) -> u32
    decreases data.len(),
{
    if data.len() == 0 {
        0xFFFF_FFFF
    } else {
        crc_bits(crc_remainder(data.drop_last()) ^ (data.last() as u32), 8)
    }
}

/// The CRC-32 of the data.
pub open spec fn crc_of(data: Seq<u8>) -> u32 {
    !crc_remainder(data)
}

/// The CRC-32 of the data.
pub fn crc32(data: &[u8]) -> (crc: u32)
    ensures
        crc == crc_of(data@),
{
    let mut crc: u32 = 0xFFFF_FFFF;
    let mut i: usize = 0;
    assert(data@.take(0) =~= Seq::<u8>::empty());
    while i < data.len()
        invariant
            i <= data@.len(),
            crc == crc_remainder(data@.take(i as int)),
        decreases data@.len() - i,
    {
        proof {
            assert(data@.take(i + 1).drop_last() =~= data@.take(i as int));
            assert(data@.take(i + 1).last() == data@[i as int]);
        }
        crc = crc ^ (data[i] as u32);
        let ghost start = crc;
        let mut k: usize = 0;
        while k < 8
            invariant
                k <= 8,
                crc == crc_bits(start, k as nat),
            decreases 8 - k,
        {
            if crc & 1 != 0 {
                crc = (crc >> 1) ^ 0xEDB8_8320;
            } else {
                crc = crc >> 1;
            }
            k = k + 1;
        }
        i = i + 1;
    }
    assert(data@.take(data@.len() as int) =~= data@);
    !crc
}

/// The CRC-32 as a list of checksums writes it: eight digits.
pub open spec fn crc_text(data: Seq<u8>) -> Seq<char> {
    zero_padded(numeral(crc_of(data) as nat, 16), 8)
}

// ── MD5 ──────────────────────────────────────────────────────────────────────
/// Bytes in hexadecimal, two digits each.
pub open spec fn hex_of(bytes: Seq<u8>) -> Seq<char>
    decreases bytes.len(),
{
    if bytes.len() == 0 {
        Seq::empty()
    } else {
        hex_of(bytes.drop_last()).push(digit((bytes.last() / 16) as int)).push(
            digit((bytes.last() % 16) as int),
        )
    }
}

fn hex_digit(d: u8) -> (c: char)
    requires
        d < 16,
    ensures
        c == digit(d as int),
{
    if d < 10 {
        (48 + d) as char
    } else {
        (87 + d) as char
    }
}

/// Bytes in hexadecimal.
pub fn hex(bytes: &Vec<u8>) -> (text: String)
    ensures
        text@ == hex_of(bytes@),
{
    let mut text = String::new();
    let mut i: usize = 0;
    assert(bytes@.take(0) =~= Seq::<u8>::empty());
    assert(text@ =~= hex_of(bytes@.take(0)));
    while i < bytes.len()
        invariant
            i <= bytes@.len(),
            text@ == hex_of(bytes@.take(i as int)),
        decreases bytes@.len() - i,
    {
        proof {
            assert(bytes@.take(i + 1).drop_last() =~= bytes@.take(i as int));
        }
        text.push(hex_digit(bytes[i] / 16));
        text.push(hex_digit(bytes[i] % 16));
        i = i + 1;
    }
    assert(bytes@.take(bytes@.len() as int) =~= bytes@);
    text
}

// ── The lists beside the file ────────────────────────────────────────────────
/// The address of a file's MD5 list.
pub fn md5_url(file_url: &str) -> (url: String)
    ensures
        url@ == trim_end_of(file_url@, '/') + ".md5"@,
{
    concat(trim_end_slashes(file_url).as_str(), ".md5")
}

/// The address of a file's CRC list.
pub fn sfv_url(file_url: &str) -> (url: String)
    ensures
        url@ == trim_end_of(file_url@, '/') + ".sfv"@,
{
    concat(trim_end_slashes(file_url).as_str(), ".sfv")
}

/// What an MD5 list asks for.
pub enum Md5Plan {
    /// It is blank: nothing can be said of the file.
    GiveUp,
    /// The file's digest is to be this text.
    Compare(String),
    /// It holds no digest: the CRC list is to be asked.
    AskSfv,
}

#[verifier::ext_equal]
pub enum Md5Step {
    GiveUp,
    Compare(Seq<char>),
    AskSfv,
}

impl View for Md5Plan {
    type V = Md5Step;

    open spec fn view(&self) -> Md5Step {
        match self {
            Md5Plan::GiveUp => Md5Step::GiveUp,
            Md5Plan::Compare(t) => Md5Step::Compare(t@),
            Md5Plan::AskSfv => Md5Step::AskSfv,
        }
    }
}

/// What an MD5 list asks for: its first word counts, in lower case, where it has 32 bytes.
pub open spec fn md5_step(body: Seq<char>) -> Md5Step {
    let w = words(body);
    if w.len() == 0 {
        Md5Step::GiveUp
    } else if encode_utf8(lowercase(w[0])).len() == 32 {
        Md5Step::Compare(lowercase(w[0]))
    } else {
        Md5Step::AskSfv
    }
}

/// What an MD5 list asks for.
pub fn md5_plan(body: &str) -> (plan: Md5Plan)
    ensures
        plan@ == md5_step(body@),
{
    let w = split_words(body);
    if w.len() == 0 {
        return Md5Plan::GiveUp;
    }
    assert(texts(w@)[0] == w@[0]@);
    let expected = to_lower(w[0].as_str());
    if expected.as_str().as_bytes().len() == 32 {
        Md5Plan::Compare(expected)
    } else {
        Md5Plan::AskSfv
    }
}

/// The checksum in a line of a CRC list: the last of two or more words. A line that is blank or
/// begins with a semicolon holds none.
pub open spec fn sfv_line(line: Seq<char>) -> Option<Seq<char>> {
    let t = trimmed(line);
    if t.len() == 0 || t[0] == ';' || words(t).len() < 2 {
        None
    } else {
        Some(lowercase(words(t).last()))
    }
}

/// The first checksum in the lines.
pub open spec fn first_sfv(lines: Seq<Seq<char>>) -> Option<Seq<char>>
    decreases lines.len(),
{
    if lines.len() == 0 {
        None
    } else {
        match sfv_line(lines[0]) {
            Some(crc) => Some(crc),
            None => first_sfv(lines.skip(1)),
        }
    }
}

/// The first checksum of a CRC list.
pub open spec fn sfv_checksum(body: Seq<char>) -> Option<Seq<char>> {
    first_sfv(split_on(body, '\n'))
}

fn read_sfv_line(line: &str) -> (crc: Option<String>)
    ensures
        match crc {
            Some(c) => sfv_line(line@) == Some(c@),
            None => sfv_line(line@) is None,
        },
{
    let t = trim(line);
    let chars = chars_of(t.as_str());
    if chars.len() == 0 || chars[0] == ';' {
        return None;
    }
    let w = split_words(t.as_str());
    if w.len() < 2 {
        return None;
    }
    assert(texts(w@).last() == w@[w@.len() - 1]@);
    Some(to_lower(w[w.len() - 1].as_str()))
}

/// The first checksum of a CRC list.
pub fn sfv_expected(body: &str) -> (crc: Option<String>)
    ensures
        match crc {
            Some(c) => sfv_checksum(body@) == Some(c@),
            None => sfv_checksum(body@) is None,
        },
{
    let lines = split_char(body, '\n');
    let ghost view = texts(lines@);
    let mut i: usize = 0;
    assert(view.skip(0) =~= view);
    while i < lines.len()
        invariant
            view == texts(lines@),
            view == split_on(body@, '\n'),
            i <= lines@.len(),
            first_sfv(view) == first_sfv(view.skip(i as int)),
        decreases lines@.len() - i,
    {
        proof {
            assert(view.skip(i as int)[0] == lines@[i as int]@);
            assert(view.skip(i as int).skip(1) =~= view.skip(i + 1));
        }
        match read_sfv_line(lines[i].as_str()) {
            Some(c) => {
                return Some(c);
            },
            None => {},
        }
        i = i + 1;
    }
    None
}

/// Whether the file's MD5 digest is `expected`.
pub fn md5_matches(data: &[u8], expected: &str) -> (same: bool)
    ensures
        same == (hex_of(md5_digest(data@)) == expected@),
{
    let digest = md5_of(data);
    same_text(hex(&digest).as_str(), expected)
}

/// Whether the file's CRC-32 is `expected`.
pub fn crc_matches(data: &[u8], expected: &str) -> (same: bool)
    ensures
        same == (crc_text(data@) == expected@),
{
    let actual = padded_numeral(crc32(data) as u64, 16, 8);
    same_text(actual.as_str(), expected)
}

/// What the CRC list says of a file: nothing where the list is missing or holds no checksum, or
/// where the file cannot be read.
pub open spec fn sfv_verdict(sfv: Option<Seq<char>>, data: Option<Seq<u8>>) -> Option<bool> {
    match sfv {
        Some(body) => match sfv_checksum(body) {
            Some(crc) => match data {
                Some(bytes) => Some(crc_text(bytes) == crc),
                None => None,
            },
            None => None,
        },
        None => None,
    }
}

/// What the lists beside a file say of it: the MD5 list counts first. A list that the server does
/// not have is `None`, and so is a file that cannot be read.
pub open spec fn verdict(
    md5: Option<Seq<char>>,
    sfv: Option<Seq<char>>,
    data: Option<Seq<u8>>,
) -> Option<bool> {
    match md5 {
        Some(body) => match md5_step(body) {
            Md5Step::GiveUp => None,
            Md5Step::Compare(expected) => match data {
                Some(bytes) => Some(hex_of(md5_digest(bytes)) == expected),
                None => None,
            },
            Md5Step::AskSfv => sfv_verdict(sfv, data),
        },
        None => sfv_verdict(sfv, data),
    }
}

pub open spec fn opt_str(text: Option<&str>) -> Option<Seq<char>> {
    match text {
        Some(t) => Some(t@),
        None => None,
    }
}

pub open spec fn opt_bytes(data: Option<&Vec<u8>>) -> Option<Seq<u8>> {
    match data {
        Some(d) => Some(d@),
        None => None,
    }
}

/// Whether the CRC list has to be asked, given what came of the MD5 list.
pub fn needs_sfv(md5: Option<&str>) -> (needed: bool)
    ensures
        needed == match md5 {
            Some(body) => md5_step(body@) is AskSfv,
            None => true,
        },
{
    match md5 {
        Some(body) => match md5_plan(body) {
            Md5Plan::AskSfv => true,
            Md5Plan::GiveUp => false,
            Md5Plan::Compare(_) => false,
        },
        None => true,
    }
}

/// What the lists beside a file say of it.
pub fn verify_file(md5: Option<&str>, sfv: Option<&str>, data: Option<&Vec<u8>>) -> (out: Option<bool>)
    ensures
        out == verdict(opt_str(md5), opt_str(sfv), opt_bytes(data)),
{
    match md5 {
        Some(body) => match md5_plan(body) {
            Md5Plan::GiveUp => {
                return None;
            },
            Md5Plan::Compare(expected) => {
                return match data {
                    Some(bytes) => Some(md5_matches(bytes.as_slice(), expected.as_str())),
                    None => None,
                };
            },
            Md5Plan::AskSfv => {},
        },
        None => {},
    }
    match sfv {
        Some(body) => match sfv_expected(body) {
            Some(crc) => match data {
                Some(bytes) => Some(crc_matches(bytes.as_slice(), crc.as_str())),
                None => None,
            },
            None => None,
        },
        None => None,
    }
}

/// Where the MD5 list settles the matter, the CRC list changes nothing.
pub proof fn law_md5_first(
    md5: Seq<char>,
    sfv: Option<Seq<char>>,
    other: Option<Seq<char>>,
    data: Option<Seq<u8>>,
)
    requires
        !(md5_step(md5) is AskSfv),
    ensures
        verdict(Some(md5), sfv, data) == verdict(Some(md5), other, data),
{
}

/// Three inputs added up byte by byte.
pub open spec fn xor3(a: Seq<u8>, b: Seq<u8>, c: Seq<u8>) -> Seq<u8> {
    Seq::new(a.len(), |i: int| a[i] ^ b[i] ^ c[i])
}

proof fn lemma_bits_linear(a: u32, b: u32, c: u32, n: nat)
    ensures
        crc_bits(a ^ b ^ c, n) == crc_bits(a, n) ^ crc_bits(b, n) ^ crc_bits(c, n),
    decreases n,
{
    if n > 0 {
        lemma_bits_linear(a, b, c, (n - 1) as nat);
        let x = crc_bits(a, (n - 1) as nat);
        let y = crc_bits(b, (n - 1) as nat);
        let z = crc_bits(c, (n - 1) as nat);
        assert(crc_bit(x ^ y ^ z) == crc_bit(x) ^ crc_bit(y) ^ crc_bit(z)) by (bit_vector);
    }
}

proof fn lemma_remainder_linear(a: Seq<u8>, b: Seq<u8>, c: Seq<u8>)
    requires
        a.len() == b.len() == c.len(),
    ensures
        crc_remainder(xor3(a, b, c)) == crc_remainder(a) ^ crc_remainder(b) ^ crc_remainder(c),
    decreases a.len(),
{
    if a.len() == 0 {
        assert(0xFFFF_FFFFu32 ^ 0xFFFF_FFFFu32 ^ 0xFFFF_FFFFu32 == 0xFFFF_FFFFu32) by (bit_vector);
    } else {
        let x = xor3(a, b, c);
        let (a0, b0, c0) = (a.drop_last(), b.drop_last(), c.drop_last());
        lemma_remainder_linear(a0, b0, c0);
        assert(x.drop_last() =~= xor3(a0, b0, c0));
        let (p, q, r) = (crc_remainder(a0), crc_remainder(b0), crc_remainder(c0));
        let (u, v, w) = (a.last(), b.last(), c.last());
        assert(x.last() == u ^ v ^ w);
        assert((p ^ q ^ r) ^ ((u ^ v ^ w) as u32) == (p ^ (u as u32)) ^ (q ^ (v as u32)) ^ (r ^ (
        w as u32))) by (bit_vector);
        lemma_bits_linear(p ^ (u as u32), q ^ (v as u32), r ^ (w as u32), 8);
    }
}

/// The checksum of three inputs of one length, added up, is the sum of their checksums.
pub proof fn law_crc_linear(a: Seq<u8>, b: Seq<u8>, c: Seq<u8>)
    requires
        a.len() == b.len() == c.len(),
    ensures
        crc_of(xor3(a, b, c)) == crc_of(a) ^ crc_of(b) ^ crc_of(c),
{
    lemma_remainder_linear(a, b, c);
    let (x, y, z) = (crc_remainder(a), crc_remainder(b), crc_remainder(c));
    assert(!(x ^ y ^ z) == !x ^ !y ^ !z) by (bit_vector);
}

proof fn lemma_bits_injective(a: u32, b: u32, n: nat)
    requires
        a != b,
    ensures
        crc_bits(a, n) != crc_bits(b, n),
    decreases n,
{
    if n > 0 {
        lemma_bits_injective(a, b, (n - 1) as nat);
        let x = crc_bits(a, (n - 1) as nat);
        let y = crc_bits(b, (n - 1) as nat);
        assert(x != y ==> crc_bit(x) != crc_bit(y)) by (bit_vector);
    }
}

proof fn lemma_one_byte(a: Seq<u8>, b: Seq<u8>, at: int)
    requires
        a.len() == b.len(),
        0 <= at < a.len(),
        a[at] != b[at],
        forall|i: int| 0 <= i < a.len() && i != at ==> #[trigger] a[i] == b[i],
    ensures
        crc_remainder(a) != crc_remainder(b),
    decreases a.len(),
{
    let (a0, b0) = (a.drop_last(), b.drop_last());
    let (p, q) = (crc_remainder(a0), crc_remainder(b0));
    let (u, v) = (a.last(), b.last());
    if at == a.len() - 1 {
        assert(a0 =~= b0);
        assert(u != v ==> p ^ (u as u32) != p ^ (v as u32)) by (bit_vector);
    } else {
        lemma_one_byte(a0, b0, at);
        assert(a[a.len() - 1] == b[a.len() - 1]);
        assert(p != q ==> p ^ (u as u32) != q ^ (u as u32)) by (bit_vector);
    }
    lemma_bits_injective(p ^ (u as u32), q ^ (v as u32), 8);
}

/// One changed byte changes the checksum.
pub proof fn law_changed_byte_shows(a: Seq<u8>, b: Seq<u8>, at: int)
    requires
        a.len() == b.len(),
        0 <= at < a.len(),
        a[at] != b[at],
        forall|i: int| 0 <= i < a.len() && i != at ==> #[trigger] a[i] == b[i],
    ensures
        crc_of(a) != crc_of(b),
{
    lemma_one_byte(a, b, at);
    let (x, y) = (crc_remainder(a), crc_remainder(b));
    assert(x != y ==> !x != !y) by (bit_vector);
}

/// The CRC-32 of nothing is zero, and each byte takes it eight bits further, however long the data
/// is. A bit goes out at the low end, and the polynomial comes in where it was set.
pub proof fn law_crc_by_bytes(data: Seq<u8>, b: u8, x: u32, n: nat)
    ensures
        crc_of(Seq::empty()) == 0,
        crc_of(data.push(b)) == !crc_bits(!crc_of(data) ^ (b as u32), 8),
        crc_bits(x, 0) == x,
        crc_bits(x, n + 1) == (crc_bits(x, n) / 2) as u32 ^ (if crc_bits(x, n) % 2 == 1 {
            0xEDB8_8320u32
        } else {
            0
        }),
{
    assert(!0xFFFF_FFFFu32 == 0u32) by (bit_vector);
    assert(data.push(b).drop_last() =~= data);
    let r = crc_remainder(data);
    assert(!(!r) == r) by (bit_vector);
    let y = crc_bits(x, n);
    assert(y & 1 == y % 2) by (bit_vector);
    assert(y >> 1 == y / 2) by (bit_vector);
    let z = y / 2;
    assert(z ^ 0u32 == z) by (bit_vector);
    assert((n + 1 - 1) as nat == n);
}

/// A byte is written with two digits: the high half and then the low half.
pub proof fn law_hex(bytes: Seq<u8>, i: int)
    requires
        0 <= i < bytes.len(),
    ensures
        hex_of(bytes).len() == 2 * bytes.len(),
        hex_of(bytes)[2 * i] == "0123456789abcdef"@[bytes[i] as int / 16],
        hex_of(bytes)[2 * i + 1] == "0123456789abcdef"@[bytes[i] as int % 16],
    decreases bytes.len(),
{
    let head = bytes.drop_last();
    lemma_hex_len(head);
    law_digit(bytes.last() as int / 16);
    law_digit(bytes.last() as int % 16);
    if i < head.len() {
        law_hex(head, i);
    }
}

proof fn lemma_hex_len(bytes: Seq<u8>)
    ensures
        hex_of(bytes).len() == 2 * bytes.len(),
    decreases bytes.len(),
{
    if bytes.len() > 0 {
        lemma_hex_len(bytes.drop_last());
    }
}

/// A checksum is written with eight digits or more, whose value it is.
pub proof fn law_crc_text(data: Seq<u8>) -> (digits: Seq<int>)
    ensures
        digits_value(digits, 16) == crc_of(data),
        crc_text(data).len() >= 8,
        crc_text(data).len() >= digits.len() > 0,
        crc_text(data).len() > 8 ==> crc_text(data).len() == digits.len(),
        forall|i: int|
            0 <= i < crc_text(data).len() - digits.len() ==> #[trigger] crc_text(data)[i] == '0',
        forall|i: int|
            0 <= i < digits.len() ==> 0 <= #[trigger] digits[i] < 16 && crc_text(data)[crc_text(
                data,
            ).len() - digits.len() + i] == "0123456789abcdef"@[digits[i]],
{
    let n = crc_of(data) as nat;
    let digits = law_numeral(n, 16);
    law_zero_padded(numeral(n, 16), 8, 0);
    assert forall|i: int| 0 <= i < crc_text(data).len() - digits.len() implies #[trigger] crc_text(
        data,
    )[i] == '0' by {
        law_zero_padded(numeral(n, 16), 8, i);
    }
    assert forall|i: int| 0 <= i < digits.len() implies 0 <= #[trigger] digits[i] < 16 && crc_text(
        data,
    )[crc_text(data).len() - digits.len() + i] == "0123456789abcdef"@[digits[i]] by {
        law_zero_padded(numeral(n, 16), 8, i);
    }
    digits
}

/// An MD5 list whose first word is a digest decides by it; a blank one says nothing, whatever else
/// there is; any other leaves the matter to the CRC list, as a missing one does.
pub proof fn law_md5_decides(body: Seq<char>, sfv: Option<Seq<char>>, data: Option<Seq<u8>>)
    ensures
        words(body).len() == 0 ==> verdict(Some(body), sfv, data) is None,
        words(body).len() > 0 && encode_utf8(lowercase(words(body)[0])).len() == 32 ==> (match data {
            Some(bytes) => verdict(Some(body), sfv, data) == Some(
                hex_of(md5_digest(bytes)) == lowercase(words(body)[0]),
            ),
            None => verdict(Some(body), sfv, data) is None,
        }),
        words(body).len() > 0 && encode_utf8(lowercase(words(body)[0])).len() != 32 ==> verdict(
            Some(body),
            sfv,
            data,
        ) == verdict(None, sfv, data),
        verdict(None, None, data) is None,
        verdict(None, sfv, None) is None,
{
}

/// A line of a CRC list that holds a checksum: it is no comment and has two words or more.
pub open spec fn holds_crc(line: Seq<char>) -> bool {
    trimmed(line).len() > 0 && trimmed(line)[0] != ';' && words(trimmed(line)).len() >= 2
}

proof fn lemma_first_sfv(lines: Seq<Seq<char>>, i: int)
    requires
        0 <= i < lines.len(),
        holds_crc(lines[i]),
        forall|k: int| 0 <= k < i ==> !holds_crc(#[trigger] lines[k]),
    ensures
        first_sfv(lines) == Some(lowercase(words(trimmed(lines[i])).last())),
    decreases lines.len(),
{
    if i > 0 {
        assert(!holds_crc(lines[0]));
        let rest = lines.skip(1);
        assert(rest[i - 1] == lines[i]);
        assert forall|k: int| 0 <= k < i - 1 implies !holds_crc(#[trigger] rest[k]) by {
            assert(!holds_crc(lines[k + 1]));
        }
        lemma_first_sfv(rest, i - 1);
    }
}

proof fn lemma_no_sfv(lines: Seq<Seq<char>>)
    requires
        forall|k: int| 0 <= k < lines.len() ==> !holds_crc(#[trigger] lines[k]),
    ensures
        first_sfv(lines) is None,
    decreases lines.len(),
{
    if lines.len() > 0 {
        assert(!holds_crc(lines[0]));
        let rest = lines.skip(1);
        assert forall|k: int| 0 <= k < rest.len() implies !holds_crc(#[trigger] rest[k]) by {
            assert(!holds_crc(lines[k + 1]));
        }
        lemma_no_sfv(rest);
    }
}

/// Without an MD5 list the first line of the CRC list that holds a checksum decides: its last word
/// is the file's CRC-32 or the file is damaged. A list without one says nothing.
pub proof fn law_sfv_decides(body: Seq<char>, data: Seq<u8>, i: int)
    ensures
        ({
            let lines = split_on(body, '\n');
            &&& 0 <= i < lines.len() && holds_crc(lines[i]) && (forall|k: int|
                0 <= k < i ==> !holds_crc(#[trigger] lines[k])) ==> verdict(
                None,
                Some(body),
                Some(data),
            ) == Some(crc_text(data) == lowercase(words(trimmed(lines[i])).last()))
            &&& (forall|k: int| 0 <= k < lines.len() ==> !holds_crc(#[trigger] lines[k])) ==> verdict(
                None,
                Some(body),
                Some(data),
            ) is None
        }),
{
    let lines = split_on(body, '\n');
    if 0 <= i < lines.len() && holds_crc(lines[i]) && (forall|k: int|
        0 <= k < i ==> !holds_crc(#[trigger] lines[k])) {
        lemma_first_sfv(lines, i);
    }
    if forall|k: int| 0 <= k < lines.len() ==> !holds_crc(#[trigger] lines[k]) {
        lemma_no_sfv(lines);
    }
}

/// What an MD5 list asks for: a digest has 32 bytes and is the list's first word; a list with any
/// other first word leaves it to the CRC list.
pub proof fn law_md5_step(body: Seq<char>)
    ensures
        md5_step(body) is GiveUp <==> words(body).len() == 0,
        md5_step(body) is Compare <==> words(body).len() > 0 && encode_utf8(
            lowercase(words(body)[0]),
        ).len() == 32,
        md5_step(body) matches Md5Step::Compare(digest) ==> digest == lowercase(words(body)[0]),
{
}

/// A list or a file that is there counts whole.
pub proof fn law_counts_whole(text: &str, data: &Vec<u8>)
    ensures
        opt_str(Some(text)) == Some(text@),
        opt_str(None) is None,
        opt_bytes(Some(data)) == Some(data@),
        opt_bytes(None) is None,
{
}

} // verus!
