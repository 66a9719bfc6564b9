//! Percent-decoding of the names that stand in links.

use crate::text::{law_trim_end, trim_end_of, trim_end_slashes};
use vstd::prelude::*;
use vstd::utf8::{encode_utf8, is_ascii_chars};

verus! {

/// Where the archive's files stand.
pub const BASE_URL: &'static str = "https://myrient.erista.me/files/";

/// The value of a hexadecimal digit.
pub open spec fn hex_value(b: u8) -> Option<int> {
    if 48 <= b <= 57 {
        Some(b - 48)
    } else if 97 <= b <= 102 {
        Some(b - 87)
    } else if 65 <= b <= 70 {
        Some(b - 55)
    } else {
        None
    }
}

fn hex_digit(b: u8) -> (v: Option<u8>)
    ensures
        match v {
            Some(x) => x < 16 && hex_value(b) == Some(x as int),
            None => hex_value(b) is None,
        },
{
    if 48 <= b && b <= 57 {
        Some(b - 48)
    } else if 97 <= b && b <= 102 {
        Some(b - 87)
    } else if 65 <= b && b <= 70 {
        Some(b - 55)
    } else {
        None
    }
}

/// The bytes read as characters one by one, where `%` and two hexadecimal digits stand for the
/// byte that the digits write. A `%` that two digits do not follow stays, and takes up to two
/// bytes after it with it.
pub open spec fn percent_decoded(bytes: Seq<u8>) -> Seq<char>
    decreases bytes.len(),
{
    if bytes.len() == 0 {
        Seq::empty()
    } else if bytes[0] != 37 {
        seq![bytes[0] as char] + percent_decoded(bytes.skip(1))
    } else if bytes.len() < 3 {
        seq!['%']
    } else {
        match (hex_value(bytes[1]), hex_value(bytes[2])) {
            (Some(h1), Some(h2)) => seq![(16 * h1 + h2) as char] + percent_decoded(bytes.skip(3)),
            _ => seq!['%'] + percent_decoded(bytes.skip(3)),
        }
    }
}

fn decode_bytes(bytes: &[u8]) -> (out: String)
    ensures
        out@ == percent_decoded(bytes@),
{
    let mut out = String::new();
    let mut pos: usize = 0;
    assert(bytes@.skip(0) =~= bytes@);
    assert(out@ + percent_decoded(bytes@) =~= percent_decoded(bytes@));
    while pos < bytes.len()
        invariant
            pos <= bytes@.len(),
            out@ + percent_decoded(bytes@.skip(pos as int)) == percent_decoded(bytes@),
        decreases bytes@.len() - pos,
    {
        let b: u8 = bytes[pos];
        let ghost rest = bytes@.skip(pos as int);
        let ghost before = out@;
        if b != 37 {
            out.push(b as char);
            pos = pos + 1;
            assert(rest.skip(1) =~= bytes@.skip(pos as int));
            assert(out@ + percent_decoded(rest.skip(1)) =~= before + percent_decoded(rest));
        } else if bytes.len() - pos < 3 {
            out.push('%');
            pos = bytes.len();
            assert(bytes@.skip(pos as int) =~= Seq::<u8>::empty());
            assert(out@ + percent_decoded(bytes@.skip(pos as int)) =~= before + percent_decoded(
                rest,
            ));
        } else {
            let h1 = hex_digit(bytes[pos + 1]);
            let h2 = hex_digit(bytes[pos + 2]);
            assert(rest[1] == bytes@[pos + 1] && rest[2] == bytes@[pos + 2]);
            match (h1, h2) {
                (Some(x), Some(y)) => {
                    out.push((16 * x + y) as char);
                },
                _ => {
                    out.push('%');
                },
            }
            pos = pos + 3;
            assert(rest.skip(3) =~= bytes@.skip(pos as int));
            assert(out@ + percent_decoded(rest.skip(3)) =~= before + percent_decoded(rest));
        }
    }
    assert(bytes@.skip(pos as int) =~= Seq::<u8>::empty());
    assert(out@ + percent_decoded(bytes@.skip(pos as int)) =~= out@);
    out
}

/// The name that an address segment shows.
pub open spec fn decoded(text: Seq<char>) -> Seq<char> {
    percent_decoded(encode_utf8(text))
}

/// The text with its percent escapes resolved.
pub fn url_decode(s: &str) -> (out: String)
    ensures
        out@ == decoded(s@),
{
    decode_bytes(s.as_bytes())
}

/// The name that a link shows: its address decoded, without the slash that marks a folder.
pub open spec fn decoded_name(href: Seq<char>) -> Seq<char> {
    decoded(trim_end_of(href, '/'))
}

/// The name that a link shows.
pub fn url_decode_name(href: &str) -> (name: String)
    ensures
        name@ == decoded_name(href@),
{
    let s = trim_end_slashes(href);
    decode_bytes(s.as_str().as_bytes())
}

/// The byte that two characters write in hexadecimal, the first of which may be a plus sign.
pub open spec fn escape_value(a: u8, b: u8) -> Option<int> {
    match (hex_value(a), hex_value(b)) {
        (Some(x), Some(y)) => Some(16 * x + y),
        (None, Some(y)) => if a == 43 {
            Some(y)
        } else {
            None
        },
        _ => None,
    }
}

/// Like `percent_decoded`, but digits that are missing at the end count as zeros, and a plus sign
/// may stand in place of the first digit.
pub open spec fn loosely_decoded(bytes: Seq<u8>) -> Seq<char>
    decreases bytes.len(),
{
    if bytes.len() == 0 {
        Seq::empty()
    } else if bytes[0] != 37 {
        seq![bytes[0] as char] + loosely_decoded(bytes.skip(1))
    } else {
        let a = if bytes.len() > 1 {
            bytes[1]
        } else {
            48
        };
        let b = if bytes.len() > 2 {
            bytes[2]
        } else {
            48
        };
        let rest = if bytes.len() > 3 {
            bytes.skip(3)
        } else {
            Seq::empty()
        };
        seq![
            match escape_value(a, b) {
                Some(v) => v as char,
                None => '%',
            },
        ] + loosely_decoded(rest)
    }
}

fn decode_escape(a: u8, b: u8) -> (v: Option<u8>)
    ensures
        match v {
            Some(x) => escape_value(a, b) == Some(x as int),
            None => escape_value(a, b) is None,
        },
{
    match (hex_digit(a), hex_digit(b)) {
        (Some(x), Some(y)) => Some(16 * x + y),
        (None, Some(y)) => if a == 43 {
            Some(y)
        } else {
            None
        },
        _ => None,
    }
}

/// The text with its percent escapes resolved, as the terminal program reads them.
pub fn url_decode_loose(s: &str) -> (out: String)
    ensures
        out@ == loosely_decoded(encode_utf8(s@)),
{
    let bytes = s.as_bytes();
    let n: usize = bytes.len();
    let mut out = String::new();
    let mut pos: usize = 0;
    assert(bytes@.skip(0) =~= bytes@);
    assert(out@ + loosely_decoded(bytes@) =~= loosely_decoded(bytes@));
    while pos < n
        invariant
            n == bytes@.len(),
            pos <= n,
            out@ + loosely_decoded(bytes@.skip(pos as int)) == loosely_decoded(bytes@),
        decreases n - pos,
    {
        let c: u8 = bytes[pos];
        let ghost rest = bytes@.skip(pos as int);
        let ghost before = out@;
        if c != 37 {
            out.push(c as char);
            pos = pos + 1;
            assert(rest.skip(1) =~= bytes@.skip(pos as int));
            assert(out@ + loosely_decoded(rest.skip(1)) =~= before + loosely_decoded(rest));
        } else {
            let left: usize = n - pos;
            let a: u8 = if left > 1 {
                bytes[pos + 1]
            } else {
                48
            };
            let b: u8 = if left > 2 {
                bytes[pos + 2]
            } else {
                48
            };
            match decode_escape(a, b) {
                Some(v) => {
                    out.push(v as char);
                },
                None => {
                    out.push('%');
                },
            }
            proof {
                if left > 1 {
                    assert(rest[1] == a);
                }
                if left > 2 {
                    assert(rest[2] == b);
                }
            }
            if left > 3 {
                pos = pos + 3;
                assert(rest.skip(3) =~= bytes@.skip(pos as int));
            } else {
                pos = n;
                assert(bytes@.skip(pos as int) =~= Seq::<u8>::empty());
            }
            assert(out@ + loosely_decoded(bytes@.skip(pos as int)) =~= before + loosely_decoded(
                rest,
            ));
        }
    }
    assert(bytes@.skip(n as int) =~= Seq::<u8>::empty());
    assert(out@ + loosely_decoded(bytes@.skip(n as int)) =~= out@);
    out
}

/// A text of ASCII characters without escapes is its own name.
pub proof fn law_decode_plain(text: Seq<char>)
    requires
        is_ascii_chars(text),
        !text.contains('%'),
    ensures
        decoded(text) == text,
{
    vstd::utf8::is_ascii_chars_encode_utf8(text);
    let b = encode_utf8(text);
    assert forall|i: int| 0 <= i < b.len() implies b[i] != 37 && b[i] as char == text[i] by {
        assert(text[i] as u8 == b[i]);
        assert(text.contains(text[i]));
    }
    lemma_decode_no_escape(b, text);
}

proof fn lemma_decode_no_escape(b: Seq<u8>, text: Seq<char>)
    requires
        b.len() == text.len(),
        forall|i: int| 0 <= i < b.len() ==> b[i] != 37 && b[i] as char == text[i],
    ensures
        percent_decoded(b) == text,
    decreases b.len(),
{
    if b.len() > 0 {
        lemma_decode_no_escape(b.skip(1), text.skip(1));
        assert(percent_decoded(b) =~= text);
    } else {
        assert(percent_decoded(b) =~= text);
    }
}

/// The slash that marks a folder does not show in its name.
pub proof fn law_folder_slash_hidden(href: Seq<char>)
    ensures
        decoded_name(href.push('/')) == decoded_name(href),
{
    assert(href.push('/').drop_last() =~= href);
}

/// The two characters are the hexadecimal digits of the byte, in either case.
pub open spec fn writes_byte(hi: u8, lo: u8, b: u8) -> bool {
    &&& hi as char == "0123456789abcdef"@[b as int / 16] || hi as char
        == "0123456789ABCDEF"@[b as int / 16]
    &&& lo as char == "0123456789abcdef"@[b as int % 16] || lo as char
        == "0123456789ABCDEF"@[b as int % 16]
}

proof fn lemma_hex_value(c: u8, d: int)
    requires
        0 <= d < 16,
        c as char == "0123456789abcdef"@[d] || c as char == "0123456789ABCDEF"@[d],
    ensures
        hex_value(c) == Some(d),
{
    reveal_strlit("0123456789abcdef");
    reveal_strlit("0123456789ABCDEF");
}

/// A percent sign and the two digits of a byte, in either case, stand for that byte, and the rest is
/// decoded by itself. Both readings agree on that.
pub proof fn law_escape_is_its_byte(b: u8, hi: u8, lo: u8, rest: Seq<u8>)
    requires
        writes_byte(hi, lo, b),
    ensures
        percent_decoded(seq![37u8, hi, lo] + rest) == seq![b as char] + percent_decoded(rest),
        loosely_decoded(seq![37u8, hi, lo] + rest) == seq![b as char] + loosely_decoded(rest),
{
    lemma_hex_value(hi, b as int / 16);
    lemma_hex_value(lo, b as int % 16);
    let bytes = seq![37u8, hi, lo] + rest;
    assert(bytes.skip(3) =~= rest);
    assert(16 * (b as int / 16) + b as int % 16 == b);
    if rest.len() == 0 {
        assert(rest =~= Seq::<u8>::empty());
    }
}

/// A byte that is no percent sign stands for itself.
pub proof fn law_plain_byte(b: u8, rest: Seq<u8>)
    requires
        b != 37,
    ensures
        percent_decoded(Seq::empty()) == Seq::<char>::empty(),
        loosely_decoded(Seq::empty()) == Seq::<char>::empty(),
        percent_decoded(seq![b] + rest) == seq![b as char] + percent_decoded(rest),
        loosely_decoded(seq![b] + rest) == seq![b as char] + loosely_decoded(rest),
{
    assert((seq![b] + rest).skip(1) =~= rest);
}

/// A percent sign that no byte's digits follow stands for itself, and the two bytes after it go with
/// it.
pub proof fn law_bad_escape(x: u8, y: u8, rest: Seq<u8>)
    requires
        forall|b: u8| !writes_byte(x, y, b),
    ensures
        percent_decoded(seq![37u8, x, y] + rest) == seq!['%'] + percent_decoded(rest),
        percent_decoded(seq![37u8, x]) == seq!['%'],
        percent_decoded(seq![37u8]) == seq!['%'],
        x != 43 ==> loosely_decoded(seq![37u8, x, y] + rest) == seq!['%'] + loosely_decoded(rest),
{
    reveal_strlit("0123456789abcdef");
    reveal_strlit("0123456789ABCDEF");
    let bytes = seq![37u8, x, y] + rest;
    assert(bytes.skip(3) =~= rest);
    if rest.len() == 0 {
        assert(rest =~= Seq::<u8>::empty());
    }
    if hex_value(x) is Some && hex_value(y) is Some {
        let b = (16 * hex_value(x)->0 + hex_value(y)->0) as u8;
        assert(b as int / 16 == hex_value(x)->0);
        assert(b as int % 16 == hex_value(y)->0);
        assert(writes_byte(x, y, b));
    }
}

/// A name is decoded by its bytes: a link's name is that of the link without slashes at its end.
pub proof fn law_link_name(name: Seq<char>, slashes: nat)
    requires
        name.len() == 0 || name.last() != '/',
    ensures
        decoded_name(name + Seq::new(slashes, |i: int| '/')) == percent_decoded(encode_utf8(name)),
        decoded(name) == percent_decoded(encode_utf8(name)),
{
    law_trim_end(name, '/', slashes);
}

/// The terminal's reading of an escape that is cut off at the end of the text counts the missing
/// digits as zeros, and a plus sign in place of the first digit as a zero.
pub proof fn law_loose_escape(b: u8, hi: u8, lo: u8, rest: Seq<u8>)
    requires
        writes_byte(hi, lo, b),
    ensures
        loosely_decoded(seq![37u8]) == seq!['\0'],
        loosely_decoded(seq![37u8, hi]) == seq![(b - b % 16) as u8 as char],
        loosely_decoded(seq![37u8, 43u8, lo] + rest) == seq![(b % 16) as u8 as char]
            + loosely_decoded(rest),
{
    reveal_strlit("0123456789abcdef");
    reveal_strlit("0123456789ABCDEF");
    lemma_hex_value(hi, b as int / 16);
    lemma_hex_value(lo, b as int % 16);
    let none = Seq::<u8>::empty();
    assert(loosely_decoded(none) =~= Seq::<char>::empty());
    assert(16 * (b as int / 16) == b - b % 16);
    assert(hex_value(48) == Some(0int));
    assert(escape_value(48, 48) == Some(0int));
    assert(escape_value(hi, 48) == Some(b - b % 16));
    assert(loosely_decoded(seq![37u8]) =~= seq!['\0']);
    assert(loosely_decoded(seq![37u8, hi]) =~= seq![(b - b % 16) as u8 as char]);
    let bytes = seq![37u8, 43u8, lo] + rest;
    assert(bytes.skip(3) =~= rest);
    if rest.len() == 0 {
        assert(rest =~= none);
    }
    assert(hex_value(43) is None);
}

} // verus!
