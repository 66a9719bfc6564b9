//! Text as sequences of characters: trimming, splitting, columns, numbers in decimal and
//! hexadecimal.

use vstd::prelude::*;
use vstd::utf8::{decode_utf8, encode_utf8, is_ascii_chars, valid_utf8};

verus! {

// ── Trusted: std's string functions ──────────────────────────────────────────
/// `String::push` appends the character at the end of the string.
pub assume_specification[ String::push ](s: &mut String, c: char)
    ensures
        final(s)@ == old(s)@.push(c),
;

/// `std::str::from_utf8` accepts exactly the byte strings that are valid UTF-8, and what it
/// returns is the text that those bytes encode.
#[verifier::external_body]
pub(crate) fn text_of_bytes(bytes: &[u8]) -> (text: Option<String>)
    ensures
        text is Some <==> valid_utf8(bytes@),
        text matches Some(t) ==> t@ == decode_utf8(bytes@),
{
    std::str::from_utf8(bytes).ok().map(String::from)
}

/// What `str::to_lowercase` makes of a text.
pub uninterp spec fn lowercase(text: Seq<char>) -> Seq<char>;

/// An ASCII text in lower case.
pub open spec fn ascii_lower(text: Seq<char>) -> Seq<char> {
    text.map_values(
        |c: char|
            if 'A' <= c <= 'Z' {
                (c as u32 + 32) as char
            } else {
                c
            },
    )
}

/// An ASCII text in upper case.
pub open spec fn ascii_upper(text: Seq<char>) -> Seq<char> {
    text.map_values(
        |c: char|
            if 'a' <= c <= 'z' {
                (c as u32 - 32) as char
            } else {
                c
            },
    )
}

/// `str::to_lowercase` is a function of the text alone. Of an ASCII text it maps the letters `A` to
/// `Z` to `a` to `z` and leaves the rest; which other characters it maps to which is Unicode's table
/// and is not restated here.
#[verifier::external_body]
pub(crate) fn to_lower(text: &str) -> (lower: String)
    ensures
        lower@ == lowercase(text@),
        is_ascii_chars(text@) ==> lower@ == ascii_lower(text@),
{
    text.to_lowercase()
}

/// What `str::to_uppercase` makes of a text.
pub uninterp spec fn uppercase(text: Seq<char>) -> Seq<char>;

/// `str::to_uppercase` is a function of the text alone. Of an ASCII text it maps the letters `a` to
/// `z` to `A` to `Z` and leaves the rest; which other characters it maps to which is Unicode's table
/// and is not restated here.
#[verifier::external_body]
pub(crate) fn to_upper(text: &str) -> (upper: String)
    ensures
        upper@ == uppercase(text@),
        is_ascii_chars(text@) ==> upper@ == ascii_upper(text@),
{
    text.to_uppercase()
}

// ── Characters and strings ───────────────────────────────────────────────────
/// The characters of a text.
pub fn chars_of(text: &str) -> (chars: Vec<char>)
    ensures
        chars@ == text@,
{
    let mut chars: Vec<char> = Vec::new();
    for c in it: text.chars()
        invariant
            chars@ == it.seq().take(it.index()),
            it.seq() == text@,
    {
        chars.push(c);
        assert(it.seq().take(it.index() + 1) =~= it.seq().take(it.index()).push(c));
    }
    assert(chars@ =~= text@);
    chars
}

/// The string made of the characters at `from..to`.
pub fn string_of(chars: &Vec<char>, from: usize, to: usize) -> (text: String)
    requires
        from <= to <= chars@.len(),
    ensures
        text@ == chars@.subrange(from as int, to as int),
{
    let mut text = String::new();
    let mut i: usize = from;
    assert(chars@.subrange(from as int, from as int) =~= Seq::<char>::empty());
    while i < to
        invariant
            from <= i <= to <= chars@.len(),
            text@ == chars@.subrange(from as int, i as int),
        decreases to - i,
    {
        text.push(chars[i]);
        assert(chars@.subrange(from as int, i + 1) =~= chars@.subrange(from as int, i as int).push(
            chars@[i as int],
        ));
        i = i + 1;
    }
    text
}

/// Whether two texts are the same.
pub fn same_text(a: &str, b: &str) -> (same: bool)
    ensures
        same == (a@ == b@),
{
    let x = a.as_bytes();
    let y = b.as_bytes();
    proof {
        vstd::utf8::encode_utf8_decode_utf8(a@);
        vstd::utf8::encode_utf8_decode_utf8(b@);
    }
    if x.len() != y.len() {
        return false;
    }
    let mut i: usize = 0;
    while i < x.len()
        invariant
            x@ == encode_utf8(a@),
            y@ == encode_utf8(b@),
            x@.len() == y@.len(),
            i <= x@.len(),
            forall|j: int| 0 <= j < i ==> x@[j] == y@[j],
        decreases x@.len() - i,
    {
        if x[i] != y[i] {
            return false;
        }
        i = i + 1;
    }
    assert(x@ =~= y@);
    true
}

/// True where `needle` occurs in `hay` as consecutive characters.
pub open spec fn occurs_in(needle: Seq<char>, hay: Seq<char>) -> bool {
    exists|i: int|
        0 <= i <= hay.len() - needle.len() && #[trigger] hay.subrange(i, i + needle.len()) == needle
}

fn stands_at(hay: &Vec<char>, needle: &Vec<char>, at: usize) -> (yes: bool)
    requires
        at + needle@.len() <= hay@.len(),
    ensures
        yes == (hay@.subrange(at as int, at + needle@.len()) == needle@),
{
    let ghost piece = hay@.subrange(at as int, at + needle@.len());
    let size: usize = hay.len();
    let mut j: usize = 0;
    while j < needle.len()
        invariant
            at + needle@.len() <= size == hay@.len(),
            piece == hay@.subrange(at as int, at + needle@.len()),
            j <= needle@.len(),
            forall|k: int| 0 <= k < j ==> #[trigger] piece[k] == needle@[k],
        decreases needle@.len() - j,
    {
        if hay[at + j] != needle[j] {
            assert(piece[j as int] != needle@[j as int]);
            return false;
        }
        assert(piece[j as int] == needle@[j as int]);
        j = j + 1;
    }
    assert(piece =~= needle@);
    true
}

/// Whether `needle` occurs in `hay`.
pub fn contains_text(hay: &str, needle: &str) -> (found: bool)
    ensures
        found == occurs_in(needle@, hay@),
{
    let h = chars_of(hay);
    let n = chars_of(needle);
    if n.len() > h.len() {
        return false;
    }
    let last: usize = h.len() - n.len();
    let mut i: usize = 0;
    while i < last
        invariant
            h@ == hay@,
            n@ == needle@,
            last == h@.len() - n@.len(),
            i <= last,
            forall|k: int| 0 <= k < i ==> #[trigger] hay@.subrange(k, k + needle@.len()) != needle@,
        decreases last - i,
    {
        if stands_at(&h, &n, i) {
            return true;
        }
        i = i + 1;
    }
    stands_at(&h, &n, last)
}

// ── Trimming ─────────────────────────────────────────────────────────────────
/// `text` without the run of `c` at its end.
pub open spec fn trim_end_of(text: Seq<char>, c: char) -> Seq<char>
    decreases text.len(),
{
    if text.len() > 0 && text.last() == c {
        trim_end_of(text.drop_last(), c)
    } else {
        text
    }
}

/// `text` without the run of `c` at its start.
pub open spec fn trim_start_of(text: Seq<char>, c: char) -> Seq<char>
    decreases text.len(),
{
    if text.len() > 0 && text[0] == c {
        trim_start_of(text.drop_first(), c)
    } else {
        text
    }
}

/// `text` without the slashes at either end.
pub open spec fn trim_slashes_of(text: Seq<char>) -> Seq<char> {
    trim_start_of(trim_end_of(text, '/'), '/')
}

/// `text` without its trailing slashes.
pub fn trim_end_slashes(text: &str) -> (rest: String)
    ensures
        rest@ == trim_end_of(text@, '/'),
{
    let chars = chars_of(text);
    let end = end_before_slashes(&chars, 0);
    proof {
        lemma_trim_end_prefix(text@, end as int, '/');
    }
    string_of(&chars, 0, end)
}

/// Where the trailing slashes of `chars[from..]` begin.
fn end_before_slashes(chars: &Vec<char>, from: usize) -> (end: usize)
    requires
        from <= chars@.len(),
    ensures
        from <= end <= chars@.len(),
        forall|i: int| end <= i < chars@.len() ==> chars@[i] == '/',
        end > from ==> chars@[end - 1] != '/',
{
    let mut end: usize = chars.len();
    while end > from && chars[end - 1] == '/'
        invariant
            from <= end <= chars@.len(),
            forall|i: int| end <= i < chars@.len() ==> chars@[i] == '/',
        decreases end,
    {
        end = end - 1;
    }
    end
}

proof fn lemma_trim_end_prefix(text: Seq<char>, end: int, c: char)
    requires
        0 <= end <= text.len(),
        forall|i: int| end <= i < text.len() ==> text[i] == c,
        end > 0 ==> text[end - 1] != c,
    ensures
        trim_end_of(text, c) == text.take(end),
    decreases text.len() - end,
{
    if end == text.len() {
        assert(text.take(end) =~= text);
    } else {
        lemma_trim_end_prefix(text.drop_last(), end, c);
        assert(text.drop_last().take(end) =~= text.take(end));
    }
}

proof fn lemma_trim_start_suffix(text: Seq<char>, start: int, c: char)
    requires
        0 <= start <= text.len(),
        forall|i: int| 0 <= i < start ==> text[i] == c,
        start < text.len() ==> text[start] != c,
    ensures
        trim_start_of(text, c) == text.skip(start),
    decreases start,
{
    if start == 0 {
        assert(text.skip(0) =~= text);
    } else {
        lemma_trim_start_suffix(text.drop_first(), start - 1, c);
        assert(text.drop_first().skip(start - 1) =~= text.skip(start));
    }
}

/// `text` without the slashes at either end: the form in which the index knows a folder.
pub fn trim_slashes(text: &str) -> (rest: String)
    ensures
        rest@ == trim_slashes_of(text@),
{
    let chars = chars_of(text);
    let mut start: usize = 0;
    let end = end_before_slashes(&chars, 0);
    while start < end && chars[start] == '/'
        invariant
            start <= end <= chars@.len(),
            forall|i: int| 0 <= i < start ==> chars@[i] == '/',
        decreases end - start,
    {
        start = start + 1;
    }
    proof {
        lemma_trim_end_prefix(text@, end as int, '/');
        lemma_trim_start_suffix(text@.take(end as int), start as int, '/');
        assert(text@.take(end as int).skip(start as int) =~= text@.subrange(
            start as int,
            end as int,
        ));
    }
    string_of(&chars, start, end)
}

/// Unicode's `White_Space` property: what `str::trim` and `str::split_whitespace` go by.
pub open spec fn is_space(c: char) -> bool {
    ||| 0x9 <= c as u32 <= 0xd
    ||| c as u32 == 0x20
    ||| c as u32 == 0x85
    ||| c as u32 == 0xa0
    ||| c as u32 == 0x1680
    ||| 0x2000 <= c as u32 <= 0x200a
    ||| c as u32 == 0x2028
    ||| c as u32 == 0x2029
    ||| c as u32 == 0x202f
    ||| c as u32 == 0x205f
    ||| c as u32 == 0x3000
}

fn space(c: char) -> (yes: bool)
    ensures
        yes == is_space(c),
{
    let n: u32 = c as u32;
    (0x9 <= n && n <= 0xd) || n == 0x20 || n == 0x85 || n == 0xa0 || n == 0x1680 || (0x2000 <= n
        && n <= 0x200a) || n == 0x2028 || n == 0x2029 || n == 0x202f || n == 0x205f || n == 0x3000
}

/// `text` without the white space at its end.
pub open spec fn trim_end_space(text: Seq<char>) -> Seq<char>
    decreases text.len(),
{
    if text.len() > 0 && is_space(text.last()) {
        trim_end_space(text.drop_last())
    } else {
        text
    }
}

/// `text` without the white space at its start.
pub open spec fn trim_start_space(text: Seq<char>) -> Seq<char>
    decreases text.len(),
{
    if text.len() > 0 && is_space(text[0]) {
        trim_start_space(text.drop_first())
    } else {
        text
    }
}

/// `text` without the white space at either end.
pub open spec fn trimmed(text: Seq<char>) -> Seq<char> {
    trim_start_space(trim_end_space(text))
}

proof fn lemma_trim_end_space_prefix(text: Seq<char>, end: int)
    requires
        0 <= end <= text.len(),
        forall|i: int| end <= i < text.len() ==> is_space(text[i]),
        end > 0 ==> !is_space(text[end - 1]),
    ensures
        trim_end_space(text) == text.take(end),
    decreases text.len() - end,
{
    if end == text.len() {
        assert(text.take(end) =~= text);
    } else {
        lemma_trim_end_space_prefix(text.drop_last(), end);
        assert(text.drop_last().take(end) =~= text.take(end));
    }
}

proof fn lemma_trim_start_space_suffix(text: Seq<char>, start: int)
    requires
        0 <= start <= text.len(),
        forall|i: int| 0 <= i < start ==> is_space(text[i]),
        start < text.len() ==> !is_space(text[start]),
    ensures
        trim_start_space(text) == text.skip(start),
    decreases start,
{
    if start == 0 {
        assert(text.skip(0) =~= text);
    } else {
        lemma_trim_start_space_suffix(text.drop_first(), start - 1);
        assert(text.drop_first().skip(start - 1) =~= text.skip(start));
    }
}

/// `text` without the white space at either end.
pub fn trim(text: &str) -> (rest: String)
    ensures
        rest@ == trimmed(text@),
{
    let chars = chars_of(text);
    let mut end: usize = chars.len();
    while end > 0 && space(chars[end - 1])
        invariant
            end <= chars@.len(),
            forall|i: int| end <= i < chars@.len() ==> is_space(chars@[i]),
        decreases end,
    {
        end = end - 1;
    }
    let mut start: usize = 0;
    while start < end && space(chars[start])
        invariant
            start <= end <= chars@.len(),
            forall|i: int| 0 <= i < start ==> is_space(chars@[i]),
        decreases end - start,
    {
        start = start + 1;
    }
    proof {
        lemma_trim_end_space_prefix(text@, end as int);
        lemma_trim_start_space_suffix(text@.take(end as int), start as int);
        assert(text@.take(end as int).skip(start as int) =~= text@.subrange(
            start as int,
            end as int,
        ));
    }
    string_of(&chars, start, end)
}

// ── Splitting and joining ────────────────────────────────────────────────────
/// The texts that strings hold.
pub open spec fn texts(strings: Seq<String>) -> Seq<Seq<char>> {
    strings.map_values(|s: String| s@)
}

/// The pieces of `text` between the characters that satisfy `at`, empty ones included.
pub open spec fn split_by(text: Seq<char>, at: spec_fn(char) -> bool) -> Seq<Seq<char>>
    decreases text.len(),
{
    if text.len() == 0 {
        seq![Seq::<char>::empty()]
    } else {
        let head = split_by(text.drop_last(), at);
        if at(text.last()) {
            head.push(Seq::<char>::empty())
        } else {
            head.drop_last().push(head.last().push(text.last()))
        }
    }
}

/// The pieces of `text` between the characters `c`, empty ones included.
pub open spec fn split_on(text: Seq<char>, c: char) -> Seq<Seq<char>> {
    split_by(text, |x: char| x == c)
}

/// The pieces that are not empty, in their order.
pub open spec fn non_empty(pieces: Seq<Seq<char>>) -> Seq<Seq<char>> {
    pieces.filter(|p: Seq<char>| p.len() > 0)
}

/// The path segments of `text`: what stands between its slashes, empty pieces left out.
pub open spec fn segments(text: Seq<char>) -> Seq<Seq<char>> {
    non_empty(split_on(text, '/'))
}

/// The words of `text`: its maximal runs without white space.
pub open spec fn words(text: Seq<char>) -> Seq<Seq<char>> {
    non_empty(split_by(text, |x: char| is_space(x)))
}

pub proof fn lemma_split_by_len(text: Seq<char>, at: spec_fn(char) -> bool)
    ensures
        split_by(text, at).len() > 0,
    decreases text.len(),
{
    if text.len() > 0 {
        lemma_split_by_len(text.drop_last(), at);
    }
}

/// The pieces of `text` between the characters `c`.
pub fn split_char(text: &str, c: char) -> (pieces: Vec<String>)
    ensures
        texts(pieces@) == split_on(text@, c),
        pieces@.len() > 0,
{
    let chars = chars_of(text);
    let mut done: Vec<String> = Vec::new();
    let mut current = String::new();
    let mut i: usize = 0;
    assert(texts(done@).push(current@) =~= split_on(text@.take(0), c));
    while i < chars.len()
        invariant
            chars@ == text@,
            i <= chars@.len(),
            texts(done@).push(current@) == split_on(text@.take(i as int), c),
        decreases chars@.len() - i,
    {
        let x = chars[i];
        let ghost head = split_on(text@.take(i as int), c);
        assert(text@.take(i + 1).drop_last() =~= text@.take(i as int));
        assert(head.drop_last() =~= texts(done@));
        assert(head.last() == current@);
        if x == c {
            done.push(current);
            current = String::new();
            assert(texts(done@).push(current@) =~= head.push(Seq::<char>::empty()));
        } else {
            current.push(x);
        }
        i = i + 1;
    }
    done.push(current);
    assert(text@.take(i as int) =~= text@);
    assert(texts(done@) =~= split_on(text@, c));
    done
}

pub proof fn lemma_filter_push<A>(s: Seq<A>, x: A, p: spec_fn(A) -> bool)
    ensures
        s.push(x).filter(p) == (if p(x) {
            s.filter(p).push(x)
        } else {
            s.filter(p)
        }),
{
    reveal(Seq::filter);
    assert(s.push(x).drop_last() =~= s);
}

/// The strings that are not empty, in their order.
fn keep_non_empty(pieces: Vec<String>) -> (kept: Vec<String>)
    ensures
        texts(kept@) == non_empty(texts(pieces@)),
{
    let mut kept: Vec<String> = Vec::new();
    let mut i: usize = 0;
    let ghost p = |p: Seq<char>| p.len() > 0;
    proof {
        reveal(Seq::filter);
    }
    assert(texts(kept@) =~= texts(pieces@).take(0).filter(p));
    while i < pieces.len()
        invariant
            i <= pieces@.len(),
            p == (|p: Seq<char>| p.len() > 0),
            texts(kept@) == texts(pieces@).take(i as int).filter(p),
        decreases pieces@.len() - i,
    {
        proof {
            lemma_filter_push(texts(pieces@).take(i as int), pieces@[i as int]@, p);
            assert(texts(pieces@).take(i + 1) =~= texts(pieces@).take(i as int).push(
                pieces@[i as int]@,
            ));
        }
        if !pieces[i].as_str().is_empty() {
            let ghost before = kept@;
            kept.push(pieces[i].clone());
            assert(texts(kept@) =~= texts(before).push(pieces@[i as int]@));
        }
        i = i + 1;
    }
    assert(texts(pieces@).take(i as int) =~= texts(pieces@));
    kept
}

/// The path segments of `text`.
pub fn split_segments(text: &str) -> (pieces: Vec<String>)
    ensures
        texts(pieces@) == segments(text@),
{
    keep_non_empty(split_char(text, '/'))
}

/// The words of `text`.
pub fn split_words(text: &str) -> (pieces: Vec<String>)
    ensures
        texts(pieces@) == words(text@),
{
    let chars = chars_of(text);
    let mut done: Vec<String> = Vec::new();
    let mut current = String::new();
    let mut i: usize = 0;
    let ghost at = |x: char| is_space(x);
    assert(texts(done@).push(current@) =~= split_by(text@.take(0), at));
    while i < chars.len()
        invariant
            chars@ == text@,
            i <= chars@.len(),
            at == (|x: char| is_space(x)),
            texts(done@).push(current@) == split_by(text@.take(i as int), at),
        decreases chars@.len() - i,
    {
        let x = chars[i];
        let ghost head = split_by(text@.take(i as int), at);
        assert(text@.take(i + 1).drop_last() =~= text@.take(i as int));
        assert(head.drop_last() =~= texts(done@));
        assert(head.last() == current@);
        if space(x) {
            done.push(current);
            current = String::new();
            assert(texts(done@).push(current@) =~= head.push(Seq::<char>::empty()));
        } else {
            current.push(x);
        }
        i = i + 1;
    }
    done.push(current);
    assert(text@.take(i as int) =~= text@);
    assert(texts(done@) =~= split_by(text@, at));
    keep_non_empty(done)
}

/// The pieces with `sep` between each two.
pub open spec fn joined(pieces: Seq<Seq<char>>, sep: Seq<char>) -> Seq<char>
    decreases pieces.len(),
{
    if pieces.len() == 0 {
        Seq::empty()
    } else if pieces.len() == 1 {
        pieces[0]
    } else {
        joined(pieces.drop_last(), sep) + sep + pieces.last()
    }
}

/// The pieces with `sep` between each two.
pub fn join(pieces: &Vec<String>, sep: &str) -> (text: String)
    ensures
        text@ == joined(texts(pieces@), sep@),
{
    let mut text = String::new();
    let mut i: usize = 0;
    while i < pieces.len()
        invariant
            i <= pieces@.len(),
            text@ == joined(texts(pieces@).take(i as int), sep@),
        decreases pieces@.len() - i,
    {
        assert(texts(pieces@).take(i + 1).drop_last() =~= texts(pieces@).take(i as int));
        if i > 0 {
            text.append(sep);
        }
        text.append(pieces[i].as_str());
        assert(text@ =~= joined(texts(pieces@).take(i + 1), sep@));
        i = i + 1;
    }
    assert(texts(pieces@).take(i as int) =~= texts(pieces@));
    text
}

/// Where the last `c` of `text` stands, if it holds one.
pub open spec fn last_index_of(text: Seq<char>, c: char) -> Option<int>
    decreases text.len(),
{
    if text.len() == 0 {
        None
    } else if text.last() == c {
        Some(text.len() - 1)
    } else {
        last_index_of(text.drop_last(), c)
    }
}

pub proof fn lemma_last_index_of(text: Seq<char>, c: char)
    ensures
        match last_index_of(text, c) {
            Some(i) => 0 <= i < text.len() && text[i] == c && forall|j: int|
                i < j < text.len() ==> text[j] != c,
            None => !text.contains(c),
        },
    decreases text.len(),
{
    if text.len() > 0 && text.last() != c {
        lemma_last_index_of(text.drop_last(), c);
        assert(forall|j: int| 0 <= j < text.len() - 1 ==> text.drop_last()[j] == text[j]);
        if last_index_of(text.drop_last(), c) is None {
            assert forall|j: int| 0 <= j < text.len() implies text[j] != c by {
                if j < text.len() - 1 {
                    assert(text.drop_last()[j] == text[j]);
                    assert(text.drop_last().contains(text.drop_last()[j]));
                }
            }
        }
    }
}

/// What stands before and after the last `c` of `text`.
pub fn split_last(text: &str, c: char) -> (parts: Option<(String, String)>)
    ensures
        match last_index_of(text@, c) {
            Some(i) => parts matches Some((a, b)) && a@ == text@.take(i) && b@ == text@.skip(i + 1),
            None => parts is None,
        },
{
    let chars = chars_of(text);
    let mut i: usize = chars.len();
    assert(text@.take(i as int) =~= text@);
    while i > 0
        invariant
            chars@ == text@,
            i <= chars@.len(),
            last_index_of(text@, c) == last_index_of(text@.take(i as int), c),
        decreases i,
    {
        assert(text@.take(i as int).drop_last() =~= text@.take(i - 1));
        if chars[i - 1] == c {
            let before = string_of(&chars, 0, i - 1);
            let after = string_of(&chars, i, chars.len());
            assert(before@ =~= text@.take(i - 1));
            assert(after@ =~= text@.skip(i as int));
            return Some((before, after));
        }
        i = i - 1;
    }
    None
}

/// Whether `c` occurs in `text`.
pub fn has_char(text: &str, c: char) -> (found: bool)
    ensures
        found == text@.contains(c),
{
    let chars = chars_of(text);
    let mut i: usize = 0;
    while i < chars.len()
        invariant
            chars@ == text@,
            i <= chars@.len(),
            forall|j: int| 0 <= j < i ==> chars@[j] != c,
        decreases chars@.len() - i,
    {
        if chars[i] == c {
            return true;
        }
        i = i + 1;
    }
    false
}

/// The two texts, one after the other.
pub fn concat(a: &str, b: &str) -> (text: String)
    ensures
        text@ == a@ + b@,
{
    let mut text = a.to_owned();
    text.append(b);
    text
}

/// The three texts, one after the other.
pub fn concat3(a: &str, b: &str, c: &str) -> (text: String)
    ensures
        text@ == a@ + b@ + c@,
{
    let mut text = a.to_owned();
    text.append(b);
    text.append(c);
    text
}

// ── Numbers ──────────────────────────────────────────────────────────────────
/// The digit `d` in a base up to sixteen.
pub open spec fn digit(d: int) -> char {
    if d < 10 {
        (48 + d) as char
    } else {
        (87 + d) as char
    }
}

/// `n` in base `base`, most significant digit first, without leading zeros.
pub open spec fn numeral(n: nat, base: nat) -> Seq<char>
    decreases n,
    when base >= 2
{
    if n < base {
        seq![digit(n as int)]
    } else {
        proof {
            assert(n / base < n) by (nonlinear_arith)
                requires
                    n >= base,
                    base >= 2,
            ;
        }
        numeral(n / base, base).push(digit((n % base) as int))
    }
}

/// `n` in decimal.
pub open spec fn decimal(n: nat) -> Seq<char> {
    numeral(n, 10)
}

/// `text` with zeros in front, so that it has at least `width` characters.
pub open spec fn zero_padded(text: Seq<char>, width: nat) -> Seq<char> {
    if text.len() < width {
        Seq::new((width - text.len()) as nat, |i: int| '0') + text
    } else {
        text
    }
}

fn digit_char(d: u8) -> (c: char)
    requires
        d < 16,
    ensures
        c == digit(d as int),
{
    if d < 10 {
        (48 + d) as char
    } else {
        (87 + d) as char
    }
}

/// Appends `n` in base `base`.
pub fn push_numeral(out: &mut String, n: u128, base: u8)
    requires
        2 <= base <= 16,
    ensures
        final(out)@ == old(out)@ + numeral(n as nat, base as nat),
    decreases n,
{
    let b: u128 = base as u128;
    if n >= b {
        proof {
            assert(n / b < n) by (nonlinear_arith)
                requires
                    n >= b,
                    b >= 2,
            ;
        }
        push_numeral(out, n / b, base);
    }
    out.push(digit_char((n % b) as u8));
    proof {
        if n < b {
            assert(n % b == n) by (nonlinear_arith)
                requires
                    n < b,
            ;
        }
        assert(out@ =~= old(out)@ + numeral(n as nat, base as nat));
    }
}

/// `n` in decimal.
pub fn decimal_text(n: u64) -> (text: String)
    ensures
        text@ == decimal(n as nat),
{
    let mut text = String::new();
    push_numeral(&mut text, n as u128, 10);
    assert(text@ =~= decimal(n as nat));
    text
}

/// `n` in base `base` with zeros in front, so that it has at least `width` digits.
pub fn padded_numeral(n: u64, base: u8, width: usize) -> (text: String)
    requires
        2 <= base <= 16,
    ensures
        text@ == zero_padded(numeral(n as nat, base as nat), width as nat),
{
    let mut bare = String::new();
    push_numeral(&mut bare, n as u128, base);
    assert(bare@ =~= numeral(n as nat, base as nat));
    let len: usize = bare.as_str().unicode_len();
    let mut text = String::new();
    let mut i: usize = len;
    while i < width
        invariant
            text@ == Seq::new((i - len) as nat, |k: int| '0'),
            len <= i,
            len < width ==> i <= width,
            len >= width ==> i == len,
        decreases width - i,
    {
        text.push('0');
        i = i + 1;
        assert(text@ =~= Seq::new((i - len) as nat, |k: int| '0'));
    }
    text.append(bare.as_str());
    assert(text@ =~= zero_padded(numeral(n as nat, base as nat), width as nat));
    text
}

// ── Cutting and padding ──────────────────────────────────────────────────────
/// The longest start of a text that has at most `n` bytes: whole characters only.
pub open spec fn clipped(text: Seq<char>, n: nat) -> Seq<char>
    decreases text.len(),
{
    if text.len() == 0 || encode_utf8(text).len() <= n {
        text
    } else {
        clipped(text.drop_last(), n)
    }
}

proof fn lemma_start_bytes(text: Seq<char>, i: int)
    requires
        0 <= i <= text.len(),
    ensures
        encode_utf8(text.take(i)).len() <= encode_utf8(text).len(),
    decreases i,
{
    if i > 0 {
        lemma_start_bytes(text.drop_first(), i - 1);
        assert(text.take(i).drop_first() =~= text.drop_first().take(i - 1));
        assert(text.take(i).first() == text.first());
    }
}

proof fn lemma_clipped_at(text: Seq<char>, n: nat, i: int)
    requires
        0 <= i < text.len(),
        encode_utf8(text.take(i)).len() <= n,
        encode_utf8(text.take(i + 1)).len() > n,
    ensures
        clipped(text, n) == text.take(i),
    decreases text.len(),
{
    lemma_start_bytes(text, i + 1);
    let shorter = text.drop_last();
    if i == shorter.len() {
        assert(text.take(i) =~= shorter);
        assert(clipped(shorter, n) == shorter);
    } else {
        assert(shorter.take(i) =~= text.take(i));
        assert(shorter.take(i + 1) =~= text.take(i + 1));
        lemma_clipped_at(shorter, n, i);
    }
}

/// The longest start of a text that has at most `n` bytes.
pub fn clip(text: &str, n: usize) -> (head: String)
    ensures
        head@ == clipped(text@, n as nat),
{
    let chars = chars_of(text);
    let mut head = String::new();
    let mut i: usize = 0;
    assert(head@ =~= text@.take(0));
    assert(encode_utf8(text@.take(0)).len() == 0);
    while i < chars.len()
        invariant
            chars@ == text@,
            i <= chars@.len(),
            head@ == text@.take(i as int),
            encode_utf8(head@).len() <= n,
        decreases chars@.len() - i,
    {
        let mut longer = head.clone();
        longer.push(chars[i]);
        assert(longer@ =~= text@.take(i + 1));
        if longer.as_str().as_bytes().len() > n {
            proof {
                lemma_clipped_at(text@, n as nat, i as int);
            }
            return head;
        }
        head = longer;
        i = i + 1;
    }
    assert(text@.take(text@.len() as int) =~= text@);
    head
}

/// Clipping leaves a start of the text that fits, and one more character would not fit.
pub proof fn law_clipped_is_longest(text: Seq<char>, n: nat)
    ensures
        clipped(text, n).len() <= text.len(),
        clipped(text, n) == text.take(clipped(text, n).len() as int),
        encode_utf8(clipped(text, n)).len() <= n,
        clipped(text, n).len() < text.len() ==> encode_utf8(
            text.take(clipped(text, n).len() as int + 1),
        ).len() > n,
    decreases text.len(),
{
    if text.len() == 0 || encode_utf8(text).len() <= n {
        assert(text.take(text.len() as int) =~= text);
        assert(encode_utf8(text).len() <= n);
    } else {
        let shorter = text.drop_last();
        law_clipped_is_longest(shorter, n);
        let k = clipped(shorter, n).len() as int;
        assert(shorter.take(k) =~= text.take(k));
        if k < shorter.len() {
            assert(shorter.take(k + 1) =~= text.take(k + 1));
        } else {
            assert(text.take(k + 1) =~= text);
        }
    }
}

/// `n` spaces.
pub open spec fn spaces(n: nat) -> Seq<char> {
    Seq::new(n, |i: int| ' ')
}

/// A text with spaces after it, so that it has at least `width` characters.
pub open spec fn padded(text: Seq<char>, width: nat) -> Seq<char> {
    if text.len() < width {
        text + spaces((width - text.len()) as nat)
    } else {
        text
    }
}

/// A text with spaces after it.
pub fn pad(text: &str, width: usize) -> (out: String)
    ensures
        out@ == padded(text@, width as nat),
{
    let mut out = text.to_owned();
    let len: usize = text.unicode_len();
    let mut i: usize = len;
    assert(out@ =~= text@ + spaces(0));
    while i < width
        invariant
            len == text@.len(),
            len <= i,
            i <= width || i == len,
            out@ == text@ + spaces((i - len) as nat),
        decreases width - i,
    {
        out.push(' ');
        i = i + 1;
        assert(out@ =~= text@ + spaces((i - len) as nat));
    }
    assert(out@ =~= padded(text@, width as nat));
    out
}

// ── What these functions promise ─────────────────────────────────────────────
/// A text occurs in another exactly where the other is the text with something before and after it.
pub proof fn law_occurs_in(needle: Seq<char>, before: Seq<char>, after: Seq<char>, hay: Seq<char>)
    ensures
        occurs_in(needle, before + needle + after),
        occurs_in(needle, hay) ==> exists|a: Seq<char>, b: Seq<char>| #[trigger] (a + needle + b)
            == hay,
{
    let whole = before + needle + after;
    let at = before.len() as int;
    assert(whole.subrange(at, at + needle.len()) =~= needle);
    if occurs_in(needle, hay) {
        let i = choose|i: int|
            0 <= i <= hay.len() - needle.len() && #[trigger] hay.subrange(i, i + needle.len())
                == needle;
        let a = hay.take(i);
        let b = hay.skip(i + needle.len());
        assert(a + needle + b =~= hay);
    }
}

/// Trimming takes the whole run of a character off the end, and nothing else.
pub proof fn law_trim_end(text: Seq<char>, c: char, n: nat)
    requires
        text.len() == 0 || text.last() != c,
    ensures
        trim_end_of(text + Seq::new(n, |i: int| c), c) == text,
    decreases n,
{
    let run = Seq::new(n, |i: int| c);
    if n > 0 {
        let shorter = Seq::new((n - 1) as nat, |i: int| c);
        assert((text + run).last() == c);
        assert((text + run).drop_last() =~= text + shorter);
        law_trim_end(text, c, (n - 1) as nat);
    } else {
        assert(text + run =~= text);
    }
}

/// Trimming takes the whole run of a character off the start, and nothing else.
pub proof fn law_trim_start(text: Seq<char>, c: char, n: nat)
    requires
        text.len() == 0 || text[0] != c,
    ensures
        trim_start_of(Seq::new(n, |i: int| c) + text, c) == text,
    decreases n,
{
    let run = Seq::new(n, |i: int| c);
    if n > 0 {
        let shorter = Seq::new((n - 1) as nat, |i: int| c);
        assert((run + text)[0] == c);
        assert((run + text).drop_first() =~= shorter + text);
        law_trim_start(text, c, (n - 1) as nat);
    } else {
        assert(run + text =~= text);
    }
}

/// The slashes around a path do not belong to it, and those inside do.
pub proof fn law_trim_slashes(path: Seq<char>, before: nat, after: nat)
    requires
        path.len() > 0,
        path[0] != '/',
        path.last() != '/',
    ensures
        trim_slashes_of(Seq::new(before, |i: int| '/') + path + Seq::new(after, |i: int| '/'))
            == path,
        trim_slashes_of(Seq::new(after, |i: int| '/')) == Seq::<char>::empty(),
{
    let none = Seq::<char>::empty();
    law_trim_end(none, '/', after);
    assert(none + Seq::new(after, |i: int| '/') =~= Seq::new(after, |i: int| '/'));
    let head = Seq::new(before, |i: int| '/') + path;
    assert(head.last() == path.last());
    law_trim_end(head, '/', after);
    law_trim_start(path, '/', before);
}

/// In ASCII, white space is the space and the characters from tab to carriage return.
pub proof fn law_ascii_space(c: char)
    requires
        c as u32 <= 127,
    ensures
        is_space(c) <==> c == ' ' || c == '\t' || c == '\n' || c == '\r' || c as u32 == 11 || c as u32
            == 12,
{
}

proof fn lemma_trim_end_run(text: Seq<char>, run: Seq<char>)
    requires
        text.len() == 0 || !is_space(text.last()),
        forall|i: int| 0 <= i < run.len() ==> is_space(#[trigger] run[i]),
    ensures
        trim_end_space(text + run) == text,
    decreases run.len(),
{
    if run.len() > 0 {
        assert(is_space(run[run.len() - 1]));
        assert((text + run).last() == run.last());
        assert((text + run).drop_last() =~= text + run.drop_last());
        lemma_trim_end_run(text, run.drop_last());
    } else {
        assert(text + run =~= text);
    }
}

proof fn lemma_trim_start_run(text: Seq<char>, run: Seq<char>)
    requires
        text.len() == 0 || !is_space(text[0]),
        forall|i: int| 0 <= i < run.len() ==> is_space(#[trigger] run[i]),
    ensures
        trim_start_space(run + text) == text,
    decreases run.len(),
{
    if run.len() > 0 {
        assert(is_space(run[0]));
        assert((run + text)[0] == run[0]);
        assert((run + text).drop_first() =~= run.drop_first() + text);
        lemma_trim_start_run(text, run.drop_first());
    } else {
        assert(run + text =~= text);
    }
}

/// The white space around a text does not belong to it, and that inside does.
pub proof fn law_trimmed(before: Seq<char>, text: Seq<char>, after: Seq<char>)
    requires
        text.len() > 0 ==> !is_space(text[0]) && !is_space(text.last()),
        forall|i: int| 0 <= i < before.len() ==> is_space(#[trigger] before[i]),
        forall|i: int| 0 <= i < after.len() ==> is_space(#[trigger] after[i]),
    ensures
        trimmed(before + text + after) == text,
{
    if text.len() > 0 {
        assert((before + text).last() == text.last());
        lemma_trim_end_run(before + text, after);
        lemma_trim_start_run(text, before);
    } else {
        let run = before + after;
        assert forall|i: int| 0 <= i < run.len() implies is_space(#[trigger] run[i]) by {
            if i < before.len() {
                assert(is_space(before[i]));
            } else {
                assert(is_space(after[i - before.len()]));
            }
        }
        assert(before + text + after =~= text + run);
        lemma_trim_end_run(text, run);
        assert(trim_start_space(text) =~= text);
    }
}

proof fn lemma_split_none(text: Seq<char>, at: spec_fn(char) -> bool)
    requires
        forall|i: int| 0 <= i < text.len() ==> !at(#[trigger] text[i]),
    ensures
        split_by(text, at) == seq![text],
    decreases text.len(),
{
    if text.len() > 0 {
        let head = text.drop_last();
        assert forall|i: int| 0 <= i < head.len() implies !at(#[trigger] head[i]) by {
            assert(text[i] == head[i]);
        }
        lemma_split_none(head, at);
        assert(!at(text[text.len() - 1]));
        assert(head.push(text.last()) =~= text);
        assert(split_by(text, at) =~= seq![text]);
    } else {
        assert(text =~= Seq::<char>::empty());
        assert(split_by(text, at) =~= seq![text]);
    }
}

proof fn lemma_split_at(a: Seq<char>, c: char, b: Seq<char>, at: spec_fn(char) -> bool)
    requires
        at(c),
    ensures
        split_by(a.push(c) + b, at) == split_by(a, at) + split_by(b, at),
    decreases b.len(),
{
    let text = a.push(c) + b;
    lemma_split_by_len(b, at);
    if b.len() == 0 {
        assert(text =~= a.push(c));
        assert(text.drop_last() =~= a);
        assert(split_by(text, at) =~= split_by(a, at) + split_by(b, at));
    } else {
        let short = b.drop_last();
        lemma_split_at(a, c, short, at);
        lemma_split_by_len(short, at);
        assert(text.drop_last() =~= a.push(c) + short);
        assert(text.last() == b.last());
        assert(split_by(text, at) =~= split_by(a, at) + split_by(b, at));
    }
}

proof fn lemma_split_on_none(text: Seq<char>, c: char)
    requires
        !text.contains(c),
    ensures
        split_on(text, c) == seq![text],
    decreases text.len(),
{
    if text.len() > 0 {
        let head = text.drop_last();
        assert forall|i: int| 0 <= i < head.len() implies head[i] != c by {
            assert(text.contains(text[i]));
        }
        lemma_split_on_none(head, c);
        assert(text.contains(text[text.len() - 1]));
        assert(head.push(text.last()) =~= text);
        assert(split_on(text, c) =~= seq![text]);
    } else {
        assert(text =~= Seq::<char>::empty());
        assert(split_on(text, c) =~= seq![text]);
    }
}

/// Splitting at a character: a text without it is one piece, and each occurrence divides the pieces
/// before it from those after it.
pub proof fn law_split(a: Seq<char>, c: char, b: Seq<char>)
    ensures
        !a.contains(c) ==> split_on(a, c) == seq![a],
        split_on(a.push(c) + b, c) == split_on(a, c) + split_on(b, c),
        split_on(b, c).len() > 0,
    decreases b.len(),
{
    if !a.contains(c) {
        lemma_split_on_none(a, c);
    }
    let text = a.push(c) + b;
    if b.len() == 0 {
        assert(text =~= a.push(c));
        assert(text.drop_last() =~= a);
        assert(split_on(text, c) =~= split_on(a, c) + split_on(b, c));
    } else {
        let short = b.drop_last();
        law_split(a, c, short);
        assert(text.drop_last() =~= a.push(c) + short);
        assert(text.last() == b.last());
        assert(split_on(text, c) =~= split_on(a, c) + split_on(b, c));
    }
}

proof fn lemma_non_empty_concat(a: Seq<Seq<char>>, b: Seq<Seq<char>>)
    ensures
        non_empty(a + b) == non_empty(a) + non_empty(b),
    decreases b.len(),
{
    let p = |x: Seq<char>| x.len() > 0;
    if b.len() == 0 {
        assert(a + b =~= a);
        reveal(Seq::filter);
        assert(non_empty(b) =~= Seq::<Seq<char>>::empty());
        assert(non_empty(a) + non_empty(b) =~= non_empty(a));
    } else {
        lemma_non_empty_concat(a, b.drop_last());
        assert(a + b =~= (a + b.drop_last()).push(b.last()));
        assert(b =~= b.drop_last().push(b.last()));
        lemma_filter_push(a + b.drop_last(), b.last(), p);
        lemma_filter_push(b.drop_last(), b.last(), p);
        assert(non_empty(a + b) =~= non_empty(a) + non_empty(b));
    }
}

proof fn lemma_non_empty_one(x: Seq<char>)
    ensures
        x.len() > 0 ==> non_empty(seq![x]) == seq![x],
        x.len() == 0 ==> non_empty(seq![x]) == Seq::<Seq<char>>::empty(),
{
    let p = |x: Seq<char>| x.len() > 0;
    let none = Seq::<Seq<char>>::empty();
    reveal(Seq::filter);
    assert(none.filter(p) =~= none);
    lemma_filter_push(none, x, p);
    assert(none.push(x) =~= seq![x]);
    if x.len() > 0 {
        assert(non_empty(seq![x]) =~= seq![x]);
    }
}

/// The segments of a path: a name without slashes is one segment, nothing is none, and a slash
/// divides the segments before it from those after it.
pub proof fn law_segments(a: Seq<char>, b: Seq<char>)
    ensures
        segments(Seq::empty()) == Seq::<Seq<char>>::empty(),
        a.len() > 0 && !a.contains('/') ==> segments(a) == seq![a],
        segments(a.push('/') + b) == segments(a) + segments(b),
{
    let none = Seq::<char>::empty();
    law_split(a, '/', b);
    law_split(none, '/', b);
    assert(!none.contains('/'));
    lemma_non_empty_one(none);
    lemma_non_empty_one(a);
    lemma_non_empty_concat(split_on(a, '/'), split_on(b, '/'));
}

/// The words of a text: what holds no white space is one word, nothing is none, and white space
/// divides the words before it from those after it.
pub proof fn law_words(a: Seq<char>, c: char, b: Seq<char>)
    requires
        is_space(c),
    ensures
        words(Seq::empty()) == Seq::<Seq<char>>::empty(),
        a.len() > 0 && (forall|i: int| 0 <= i < a.len() ==> !is_space(#[trigger] a[i])) ==> words(a)
            == seq![a],
        words(a.push(c) + b) == words(a) + words(b),
{
    let none = Seq::<char>::empty();
    let at = |x: char| is_space(x);
    lemma_split_at(a, c, b, at);
    lemma_split_none(none, at);
    lemma_non_empty_one(none);
    lemma_non_empty_one(a);
    if forall|i: int| 0 <= i < a.len() ==> !is_space(#[trigger] a[i]) {
        lemma_split_none(a, at);
    }
    lemma_non_empty_concat(split_by(a, at), split_by(b, at));
}

/// Joining puts the separator between the pieces, and only there.
pub proof fn law_joined(pieces: Seq<Seq<char>>, last: Seq<char>, sep: Seq<char>)
    ensures
        joined(Seq::empty(), sep) == Seq::<char>::empty(),
        joined(seq![last], sep) == last,
        pieces.len() > 0 ==> joined(pieces.push(last), sep) == joined(pieces, sep) + sep + last,
{
    assert(pieces.push(last).drop_last() =~= pieces);
}

/// The last place of a character has it, and none comes after; without a place the text is without
/// the character.
pub proof fn law_last_index(text: Seq<char>, c: char)
    ensures
        match last_index_of(text, c) {
            Some(i) => 0 <= i < text.len() && text[i] == c && (forall|k: int|
                i < k < text.len() ==> text[k] != c),
            None => !text.contains(c),
        },
    decreases text.len(),
{
    if text.len() > 0 && text.last() != c {
        let head = text.drop_last();
        law_last_index(head, c);
        match last_index_of(head, c) {
            Some(i) => {
                assert forall|k: int| i < k < text.len() implies text[k] != c by {
                    if k < head.len() {
                        assert(head[k] == text[k]);
                    }
                }
            },
            None => {
                assert forall|k: int| 0 <= k < text.len() implies text[k] != c by {
                    if k < head.len() {
                        assert(head.contains(head[k]));
                    }
                }
            },
        }
    }
}

/// The value that digits write, one after the other.
pub open spec fn digits_value(digits: Seq<int>, base: nat) -> int
    decreases digits.len(),
{
    if digits.len() == 0 {
        0
    } else {
        digits_value(digits.drop_last(), base) * base + digits.last()
    }
}

/// A digit is its place in the row of digits.
pub proof fn law_digit(d: int)
    requires
        0 <= d < 16,
    ensures
        digit(d) == "0123456789abcdef"@[d],
{
    reveal_strlit("0123456789abcdef");
}

/// A number is written with the digits whose value it is, and without zeros in front.
pub proof fn law_numeral(n: nat, base: nat) -> (digits: Seq<int>)
    requires
        2 <= base <= 16,
    ensures
        digits_value(digits, base) == n,
        digits.len() == numeral(n, base).len() > 0,
        forall|i: int|
            0 <= i < digits.len() ==> 0 <= #[trigger] digits[i] < base && numeral(n, base)[i]
                == "0123456789abcdef"@[digits[i]],
        digits[0] == 0 ==> n == 0 && digits.len() == 1,
    decreases n,
{
    reveal_strlit("0123456789abcdef");
    if n < base {
        let digits = seq![n as int];
        assert(digits.drop_last() =~= Seq::<int>::empty());
        assert(digits_value(digits.drop_last(), base) == 0);
        assert(0 * base + n as int == n as int);
        law_digit(n as int);
        digits
    } else {
        assert(n / base < n) by (nonlinear_arith)
            requires
                n >= base,
                base >= 2,
        ;
        assert(n / base >= 1) by (nonlinear_arith)
            requires
                n >= base,
                base >= 2,
        ;
        let head = law_numeral(n / base, base);
        let digits = head.push((n % base) as int);
        assert(digits.drop_last() =~= head);
        assert((n / base) * base + n % base == n) by (nonlinear_arith)
            requires
                base >= 2,
        ;
        assert(0 <= n % base < base) by (nonlinear_arith)
            requires
                base >= 2,
        ;
        law_digit((n % base) as int);
        assert forall|i: int| 0 <= i < digits.len() implies 0 <= #[trigger] digits[i] < base
            && numeral(n, base)[i] == "0123456789abcdef"@[digits[i]] by {
            if i < head.len() {
                assert(head[i] == digits[i]);
            }
        }
        assert(digits[0] == head[0]);
        digits
    }
}

/// Zeros in front fill a number up to its width, and change nothing where it has it.
pub proof fn law_zero_padded(text: Seq<char>, width: nat, i: int)
    ensures
        zero_padded(text, width).len() == (if text.len() < width {
            width
        } else {
            text.len()
        }),
        0 <= i < text.len() ==> zero_padded(text, width)[zero_padded(text, width).len() - text.len()
            + i] == text[i],
        0 <= i < zero_padded(text, width).len() - text.len() ==> zero_padded(text, width)[i] == '0',
{
}

/// A column holds the text first and then spaces up to its width.
pub proof fn law_padded(text: Seq<char>, width: nat, i: int)
    ensures
        padded(text, width).len() == (if text.len() < width {
            width
        } else {
            text.len()
        }),
        0 <= i < text.len() ==> padded(text, width)[i] == text[i],
        text.len() <= i < padded(text, width).len() ==> padded(text, width)[i] == ' ',
{
}

/// Texts are told one by one.
pub proof fn law_texts(strings: Seq<String>, i: int)
    ensures
        texts(strings).len() == strings.len(),
        0 <= i < strings.len() ==> texts(strings)[i] == strings[i]@,
{
}

} // verus!
