//! Sizes as the server writes them.

use crate::text::{
    ascii_upper, chars_of, is_space, law_trimmed, same_text, string_of, to_upper, trim, trimmed,
    uppercase,
};
use vstd::prelude::*;
use vstd::utf8::is_ascii_chars;

verus! {

/// Where the first `c` of `text` stands, if it holds one.
pub open spec fn first_index_of(text: Seq<char>, c: char) -> Option<int>
    decreases text.len(),
{
    if text.len() == 0 {
        None
    } else if text[0] == c {
        Some(0)
    } else {
        match first_index_of(text.skip(1), c) {
            Some(i) => Some(i + 1),
            None => None,
        }
    }
}

/// The bytes that a unit stands for, in upper case: decimal names count as binary ones.
pub open spec fn unit_value(unit: Seq<char>) -> u64 {
    if unit == "TIB"@ || unit == "TB"@ {
        1_099_511_627_776
    } else if unit == "GIB"@ || unit == "GB"@ {
        1_073_741_824
    } else if unit == "MIB"@ || unit == "MB"@ {
        1_048_576
    } else if unit == "KIB"@ || unit == "KB"@ {
        1_024
    } else {
        1
    }
}

/// The unit of a size, as it is written: what follows the first space.
pub open spec fn unit_text(text: Seq<char>) -> Seq<char> {
    let t = trimmed(text);
    match first_index_of(t, ' ') {
        Some(i) => trimmed(t.skip(i + 1)),
        None => Seq::empty(),
    }
}

/// A size's number, as it is written, and the bytes that its unit stands for. `None` where there
/// is no size: the text is blank or a dash.
pub open spec fn size_split(text: Seq<char>) -> Option<(Seq<char>, u64)> {
    let t = trimmed(text);
    if t.len() == 0 || t == "-"@ {
        None
    } else {
        Some(
            (
                match first_index_of(t, ' ') {
                    Some(i) => t.take(i),
                    None => t,
                },
                unit_value(uppercase(unit_text(text))),
            ),
        )
    }
}

/// The bytes that a unit stands for, in upper case.
pub fn unit_bytes(unit: &str) -> (value: u64)
    ensures
        value == unit_value(unit@),
{
    if same_text(unit, "TIB") || same_text(unit, "TB") {
        1_099_511_627_776
    } else if same_text(unit, "GIB") || same_text(unit, "GB") {
        1_073_741_824
    } else if same_text(unit, "MIB") || same_text(unit, "MB") {
        1_048_576
    } else if same_text(unit, "KIB") || same_text(unit, "KB") {
        1_024
    } else {
        1
    }
}

/// A size's number, as it is written, and the bytes that its unit stands for.
pub fn size_parts(text: &str) -> (parts: Option<(String, u64)>)
    ensures
        match parts {
            Some((number, unit)) => size_split(text@) == Some((number@, unit)),
            None => size_split(text@) is None,
        },
        is_ascii_chars(unit_text(text@)) ==> (parts matches Some((_, unit)) ==> unit == unit_value(
            ascii_upper(unit_text(text@)),
        )),
{
    let t = trim(text);
    if t.as_str().unicode_len() == 0 || same_text(t.as_str(), "-") {
        return None;
    }
    let chars = chars_of(t.as_str());
    let n: usize = chars.len();
    let mut i: usize = 0;
    assert(chars@.skip(0) =~= chars@);
    while i < n && chars[i] != ' '
        invariant
            n == chars@.len(),
            i <= n,
            first_index_of(chars@, ' ') == match first_index_of(chars@.skip(i as int), ' ') {
                Some(k) => Some(k + i),
                None => None,
            },
        decreases n - i,
    {
        assert(chars@.skip(i as int).skip(1) =~= chars@.skip(i + 1));
        i = i + 1;
    }
    let number = string_of(&chars, 0, i);
    assert(number@ =~= chars@.take(i as int));
    let bare = if i < n {
        let rest = string_of(&chars, i + 1, n);
        assert(rest@ =~= chars@.skip(i + 1));
        trim(rest.as_str())
    } else {
        let none = String::new();
        assert(none@ =~= Seq::<char>::empty());
        none
    };
    assert(bare@ == unit_text(text@));
    let unit = to_upper(bare.as_str());
    assert(i == n ==> number@ =~= chars@);
    Some((number, unit_bytes(unit.as_str())))
}

/// The units, each 1024 times the one before; what is no unit counts single bytes.
pub proof fn law_units(unit: Seq<char>)
    ensures
        unit == "KB"@ || unit == "KIB"@ ==> unit_value(unit) == 1024,
        unit == "MB"@ || unit == "MIB"@ ==> unit_value(unit) == 1024 * 1024,
        unit == "GB"@ || unit == "GIB"@ ==> unit_value(unit) == 1024 * 1024 * 1024,
        unit == "TB"@ || unit == "TIB"@ ==> unit_value(unit) == 1024 * 1024 * 1024 * 1024,
        unit != "KB"@ && unit != "KIB"@ && unit != "MB"@ && unit != "MIB"@ && unit != "GB"@ && unit
            != "GIB"@ && unit != "TB"@ && unit != "TIB"@ ==> unit_value(unit) == 1,
{
    reveal_strlit("KB");
    reveal_strlit("KIB");
    reveal_strlit("MB");
    reveal_strlit("MIB");
    reveal_strlit("GB");
    reveal_strlit("GIB");
    reveal_strlit("TB");
    reveal_strlit("TIB");
    let k = "KB"@;
    let m = "MB"@;
    let g = "GB"@;
    let t = "TB"@;
    assert(k[0] != m[0] && k[0] != g[0] && k[0] != t[0] && m[0] != g[0] && m[0] != t[0] && g[0]
        != t[0]);
    assert("KIB"@[0] == 'K' && "MIB"@[0] == 'M' && "GIB"@[0] == 'G' && "TIB"@[0] == 'T');
}

proof fn lemma_first_index(number: Seq<char>, rest: Seq<char>, c: char)
    requires
        !number.contains(c),
    ensures
        first_index_of(number.push(c) + rest, c) == Some(number.len() as int),
        first_index_of(number, c) is None,
    decreases number.len(),
{
    if number.len() > 0 {
        let text = number.push(c) + rest;
        assert(number.contains(number[0]));
        let tail = number.skip(1);
        assert forall|i: int| 0 <= i < tail.len() implies tail[i] != c by {
            assert(number.contains(number[i + 1]));
        }
        lemma_first_index(tail, rest, c);
        assert(text.skip(1) =~= tail.push(c) + rest);
    }
}

/// A size is its number, up to the first space, and the unit behind it, whatever white space stands
/// around them; without a space it has no unit. A blank text and a dash are no size.
pub proof fn law_size_split(number: Seq<char>, unit: Seq<char>)
    requires
        number.len() > 0,
        !number.contains(' '),
        !is_space(number[0]),
        !is_space(number.last()),
        unit.len() > 0,
        !is_space(unit[0]),
        !is_space(unit.last()),
    ensures
        size_split(number.push(' ') + unit) == Some((number, unit_value(uppercase(unit)))),
        number != "-"@ ==> size_split(number) == Some((number, unit_value(uppercase(Seq::empty())))),
        size_split(Seq::empty()) is None,
        size_split("-"@) is None,
{
    reveal_strlit("-");
    let none = Seq::<char>::empty();
    let text = number.push(' ') + unit;
    assert(none + text + none =~= text);
    assert(text[0] == number[0] && text.last() == unit.last());
    law_trimmed(none, text, none);
    lemma_first_index(number, unit, ' ');
    assert(text.take(number.len() as int) =~= number);
    assert(text.skip(number.len() as int + 1) =~= unit);
    assert(none + unit + none =~= unit);
    law_trimmed(none, unit, none);
    assert(text != "-"@) by {
        assert(text.len() >= 3);
    }
    assert(none + number + none =~= number);
    law_trimmed(none, number, none);
    assert(none + none + none =~= none);
    law_trimmed(none, none, none);
    let dash = "-"@;
    assert(none + dash + none =~= dash);
    law_trimmed(none, dash, none);
}

} // verus!
