//! Where a downloaded file goes.

use crate::generated_dirs::{folder_size, recorded_size, LocalIndex};
use crate::outside::{url_path_segments, url_segments};
use crate::text::{
    has_char, last_index_of, law_last_index, law_split, lemma_split_by_len, non_empty, same_text,
    split_char, split_on, texts,
};
use crate::url_text::{decoded, loosely_decoded, url_decode, url_decode_loose};
use vstd::prelude::*;
use vstd::utf8::encode_utf8;

verus! {

/// The segments of a URL's path that say where its file goes: those that are not empty, without the
/// first two, which are the archive's root and the collection. `None` where nothing is left.
pub open spec fn kept_segments(segments: Seq<Seq<char>>) -> Option<Seq<Seq<char>>> {
    let named = non_empty(segments);
    if named.len() < 3 {
        None
    } else {
        Some(named.skip(2))
    }
}

/// A segment without its escapes. `loose` says by which of the two readings of an escape.
pub open spec fn decoded_segment(segment: Seq<char>, loose: bool) -> Seq<char> {
    if loose {
        loosely_decoded(encode_utf8(segment))
    } else {
        decoded(segment)
    }
}

/// The names that the segments hold, one after the other: an escaped slash divides two names.
pub open spec fn decoded_names(segments: Seq<Seq<char>>, loose: bool) -> Seq<Seq<char>>
    decreases segments.len(),
{
    if segments.len() == 0 {
        Seq::empty()
    } else {
        decoded_names(segments.drop_last(), loose) + split_on(
            decoded_segment(segments.last(), loose),
            '/',
        )
    }
}

/// The text names a file or a folder inside the folder that it is looked up in, where slashes alone
/// divide names.
pub open spec fn is_plain_name(name: Seq<char>) -> bool {
    name.len() > 0 && !name.contains('/') && name != "."@ && name != ".."@
}

pub open spec fn all_plain(names: Seq<Seq<char>>) -> bool {
    forall|k: int| 0 <= k < names.len() ==> is_plain_name(#[trigger] names[k])
}

/// The names of a file's folders under the destination, and of the file itself; `None` where one of
/// them does not name something inside its folder.
pub open spec fn dest_names(segments: Seq<Seq<char>>, loose: bool) -> Option<Seq<Seq<char>>> {
    match kept_segments(segments) {
        Some(kept) => if all_plain(decoded_names(kept, loose)) {
            Some(decoded_names(kept, loose))
        } else {
            None
        },
        None => None,
    }
}

fn plain_name(name: &str) -> (yes: bool)
    ensures
        yes == is_plain_name(name@),
{
    name.unicode_len() > 0 && !has_char(name, '/') && !same_text(name, ".") && !same_text(
        name,
        "..",
    )
}

fn plain_names(names: &Vec<String>) -> (yes: bool)
    ensures
        yes == all_plain(texts(names@)),
{
    let ghost view = texts(names@);
    let mut i: usize = 0;
    while i < names.len()
        invariant
            view == texts(names@),
            i <= names@.len(),
            forall|k: int| 0 <= k < i ==> is_plain_name(#[trigger] view[k]),
        decreases names@.len() - i,
    {
        assert(view[i as int] == names@[i as int]@);
        if !plain_name(names[i].as_str()) {
            return false;
        }
        i = i + 1;
    }
    true
}

proof fn lemma_some_name(segments: Seq<Seq<char>>, loose: bool)
    requires
        segments.len() > 0,
    ensures
        decoded_names(segments, loose).len() > 0,
{
    lemma_split_by_len(decoded_segment(segments.last(), loose), |x: char| x == '/');
}

/// The names of a file's folders under the destination, and of the file itself, from the segments
/// of its URL's path. Each names something inside its folder.
pub fn names_of(segments: &Vec<String>, loose: bool) -> (names: Option<Vec<String>>)
    ensures
        match names {
            Some(v) => dest_names(texts(segments@), loose) == Some(texts(v@)),
            None => dest_names(texts(segments@), loose) is None,
        },
        names matches Some(v) ==> v@.len() > 0 && all_plain(texts(v@)),
{
    let named = keep_named(segments);
    let ghost all = texts(named@);
    if named.len() < 3 {
        return None;
    }
    let ghost kept = all.skip(2);
    let mut names: Vec<String> = Vec::new();
    let mut i: usize = 2;
    assert(texts(names@) =~= decoded_names(kept.take(0), loose));
    while i < named.len()
        invariant
            all == texts(named@),
            kept == all.skip(2),
            2 <= i <= named@.len(),
            texts(names@) == decoded_names(kept.take(i - 2), loose),
        decreases named@.len() - i,
    {
        let ghost before = texts(names@);
        proof {
            assert(kept.take(i - 1).drop_last() =~= kept.take(i - 2));
            assert(kept.take(i - 1).last() == named@[i as int]@);
        }
        let name = if loose {
            url_decode_loose(named[i].as_str())
        } else {
            url_decode(named[i].as_str())
        };
        let mut parts = split_char(name.as_str(), '/');
        let ghost pieces = texts(parts@);
        names.append(&mut parts);
        assert(texts(names@) =~= before + pieces);
        i = i + 1;
    }
    proof {
        assert(kept.take(kept.len() as int) =~= kept);
        lemma_some_name(kept, loose);
    }
    if plain_names(&names) {
        Some(names)
    } else {
        None
    }
}

fn keep_named(segments: &Vec<String>) -> (kept: Vec<String>)
    ensures
        texts(kept@) == non_empty(texts(segments@)),
{
    let ghost view = texts(segments@);
    let mut kept: Vec<String> = Vec::new();
    let mut i: usize = 0;
    proof {
        assert(view.take(0) =~= Seq::<Seq<char>>::empty());
        reveal(Seq::filter);
        assert(texts(kept@) =~= non_empty(view.take(0)));
    }
    while i < segments.len()
        invariant
            view == texts(segments@),
            i <= segments@.len(),
            texts(kept@) == non_empty(view.take(i as int)),
        decreases segments@.len() - i,
    {
        let ghost before = texts(kept@);
        proof {
            assert(view.take(i + 1) =~= view.take(i as int).push(view[i as int]));
            assert(view[i as int] == segments@[i as int]@);
            lemma_non_empty_push(view.take(i as int), view[i as int]);
        }
        if segments[i].as_str().unicode_len() > 0 {
            kept.push(segments[i].clone());
            assert(texts(kept@) =~= before.push(view[i as int]));
        }
        i = i + 1;
    }
    assert(view.take(segments@.len() as int) =~= view);
    kept
}

proof fn lemma_non_empty_push(list: Seq<Seq<char>>, x: Seq<char>)
    ensures
        non_empty(list.push(x)) == if x.len() > 0 {
            non_empty(list).push(x)
        } else {
            non_empty(list)
        },
{
    reveal(Seq::filter);
    assert(list.push(x).drop_last() =~= list);
}

/// The names that the file at `url` gets under the destination; `None` where the URL cannot be
/// read, is too short or leads out of the destination.
pub open spec fn dest_of(url: Seq<char>, loose: bool) -> Option<Seq<Seq<char>>> {
    match url_path_segments(url) {
        Some(segments) => dest_names(segments, loose),
        None => None,
    }
}

/// The names that the file at `url` gets under the destination.
pub fn guess_dest_path(url: &str, loose: bool) -> (names: Option<Vec<String>>)
    ensures
        match names {
            Some(v) => dest_of(url@, loose) == Some(texts(v@)),
            None => dest_of(url@, loose) is None,
        },
        names matches Some(v) ==> v@.len() > 0 && all_plain(texts(v@)),
{
    match url_segments(url) {
        Some(segments) => names_of(&segments, loose),
        None => None,
    }
}

proof fn lemma_no_slash(name: Seq<char>)
    requires
        !name.contains('/'),
    ensures
        split_on(name, '/') == seq![name],
    decreases name.len(),
{
    if name.len() > 0 {
        let head = name.drop_last();
        assert forall|i: int| 0 <= i < head.len() implies head[i] != '/' by {
            assert(name.contains(name[i]));
        }
        lemma_no_slash(head);
        assert(name.contains(name[name.len() - 1]));
        assert(head.push(name.last()) =~= name);
        assert(split_on(name, '/') =~= seq![name]);
    } else {
        assert(name =~= Seq::<char>::empty());
        assert(split_on(name, '/') =~= seq![name]);
    }
}

proof fn lemma_one_for_one(segments: Seq<Seq<char>>, loose: bool)
    requires
        forall|k: int|
            0 <= k < segments.len() ==> !decoded_segment(#[trigger] segments[k], loose).contains('/'),
    ensures
        decoded_names(segments, loose) == segments.map_values(
            |s: Seq<char>| decoded_segment(s, loose),
        ),
    decreases segments.len(),
{
    let names = segments.map_values(|s: Seq<char>| decoded_segment(s, loose));
    if segments.len() > 0 {
        let head = segments.drop_last();
        assert forall|k: int| 0 <= k < head.len() implies !decoded_segment(
            #[trigger] head[k],
            loose,
        ).contains('/') by {
            assert(segments[k] == head[k]);
        }
        lemma_one_for_one(head, loose);
        assert(!decoded_segment(segments[segments.len() - 1], loose).contains('/'));
        lemma_no_slash(decoded_segment(segments.last(), loose));
    }
    assert(decoded_names(segments, loose) =~= names);
}

/// The folder structure is kept: the names are the decoded segments of the path after the first
/// two, one for one and in their order.
pub proof fn law_structure_kept(segments: Seq<Seq<char>>, loose: bool)
    requires
        forall|k: int| 0 <= k < segments.len() ==> (#[trigger] segments[k]).len() > 0,
        segments.len() >= 3,
        forall|k: int|
            2 <= k < segments.len() ==> is_plain_name(
                decoded_segment(#[trigger] segments[k], loose),
            ),
    ensures
        dest_names(segments, loose) == Some(
            segments.skip(2).map_values(|s: Seq<char>| decoded_segment(s, loose)),
        ),
{
    lemma_all_named(segments);
    let kept = segments.skip(2);
    assert forall|k: int| 0 <= k < kept.len() implies is_plain_name(
        decoded_segment(#[trigger] kept[k], loose),
    ) by {
        assert(segments[k + 2] == kept[k]);
    }
    lemma_one_for_one(kept, loose);
}

/// No URL leads out of the destination: each name stands for something inside the folder that the
/// names before it lead to. This is of systems on which slashes alone divide the names of a path;
/// it says nothing of backslashes and drive letters.
pub proof fn law_inside_destination(url: Seq<char>, loose: bool)
    ensures
        dest_of(url, loose) matches Some(names) ==> names.len() > 0 && all_plain(names),
        dest_of(url, loose) matches Some(names) ==> forall|k: int|
            0 <= k < names.len() ==> (#[trigger] names[k]).len() > 0 && !names[k].contains('/')
                && names[k] != "."@ && names[k] != ".."@,
{
    if let Some(names) = dest_of(url, loose) {
        assert forall|k: int| 0 <= k < names.len() implies (#[trigger] names[k]).len() > 0
            && !names[k].contains('/') && names[k] != "."@ && names[k] != ".."@ by {
            assert(is_plain_name(names[k]));
        }
    }
    if let Some(segments) = url_path_segments(url) {
        if let Some(kept) = kept_segments(segments) {
            lemma_some_name(kept, loose);
        }
    }
}

proof fn lemma_all_named(segments: Seq<Seq<char>>)
    requires
        forall|k: int| 0 <= k < segments.len() ==> (#[trigger] segments[k]).len() > 0,
    ensures
        non_empty(segments) == segments,
    decreases segments.len(),
{
    reveal(Seq::filter);
    if segments.len() > 0 {
        let head = segments.drop_last();
        assert forall|k: int| 0 <= k < head.len() implies (#[trigger] head[k]).len() > 0 by {
            assert(segments[k] == head[k]);
        }
        lemma_all_named(head);
        lemma_non_empty_push(head, segments.last());
        assert(head.push(segments.last()) =~= segments);
        assert(segments[segments.len() - 1].len() > 0);
    } else {
        assert(non_empty(segments) =~= segments);
    }
}

// ── Space ────────────────────────────────────────────────────────────────────
/// The bytes under the collection that a URL's path leads to; zero where they are not known.
pub open spec fn collection_size(data: Seq<u8>, segments: Seq<Seq<char>>) -> u64 {
    if segments.len() >= 2 {
        match recorded_size(data, segments[1]) {
            Some(n) => n,
            None => 0,
        }
    } else {
        0
    }
}

/// The bytes under the collection that a URL's path leads to.
pub fn size_of_collection(index: &LocalIndex, segments: &Vec<String>) -> (size: u64)
    requires
        index.wf(),
    ensures
        size == collection_size(index@, texts(segments@)),
{
    if segments.len() < 2 {
        return 0;
    }
    assert(texts(segments@)[1] == segments@[1]@);
    match folder_size(index, segments[1].as_str()) {
        Some(n) => n,
        None => 0,
    }
}

/// How many bytes a download may take, judged by its collection.
pub fn estimated_size(index: &LocalIndex, url: &str) -> (size: u64)
    requires
        index.wf(),
    ensures
        size == match url_path_segments(url@) {
            Some(segments) => collection_size(index@, segments),
            None => 0,
        },
{
    match url_segments(url) {
        Some(segments) => size_of_collection(index, &segments),
        None => 0,
    }
}

/// Space is tight: there is less than the estimate and a tenth of it.
pub open spec fn is_tight(estimated: nat, free: nat) -> bool {
    estimated > 0 && free < estimated + estimated / 10
}

/// Whether space is tight.
pub fn low_space(estimated: u64, free: u64) -> (low: bool)
    ensures
        low == is_tight(estimated as nat, free as nat),
{
    estimated > 0 && (free as u128) < estimated as u128 + (estimated / 10) as u128
}

/// A file's names are those of the segments behind the first two, one segment after the other; what
/// a segment decodes to is divided at its slashes.
pub proof fn law_names_by_segment(segments: Seq<Seq<char>>, segment: Seq<char>)
    ensures
        decoded_names(Seq::empty(), false) == Seq::<Seq<char>>::empty(),
        decoded_names(Seq::empty(), true) == Seq::<Seq<char>>::empty(),
        decoded_names(segments.push(segment), false) == decoded_names(segments, false) + split_on(
            decoded(segment),
            '/',
        ),
        decoded_names(segments.push(segment), true) == decoded_names(segments, true) + split_on(
            loosely_decoded(encode_utf8(segment)),
            '/',
        ),
{
    assert(segments.push(segment).drop_last() =~= segments);
}

/// Empty segments do not count, and without three others there is no place for the file.
pub proof fn law_place_needs_three(segments: Seq<Seq<char>>, loose: bool)
    ensures
        segments.len() < 3 ==> dest_names(segments, loose) is None,
        dest_names(segments.push(Seq::empty()), loose) == dest_names(segments, loose),
        dest_names(segments, loose) matches Some(names) ==> names == decoded_names(
            non_empty(segments).skip(2),
            loose,
        ),
{
    lemma_non_empty_push(segments, Seq::empty());
    lemma_non_empty_len(segments);
}

proof fn lemma_non_empty_len(segments: Seq<Seq<char>>)
    ensures
        non_empty(segments).len() <= segments.len(),
    decreases segments.len(),
{
    reveal(Seq::filter);
    if segments.len() > 0 {
        lemma_non_empty_len(segments.drop_last());
        lemma_non_empty_push(segments.drop_last(), segments.last());
        assert(segments.drop_last().push(segments.last()) =~= segments);
    }
}

/// Space that does not hold the estimate is tight, and space for eleven tenths of it is not. More
/// space never makes it tight, and without an estimate it is never tight.
pub proof fn law_space(estimated: nat, free: nat, more: nat)
    ensures
        !is_tight(0, free),
        free < estimated ==> is_tight(estimated, free),
        10 * free >= 11 * estimated ==> !is_tight(estimated, free),
        10 * free + 10 <= 11 * estimated ==> is_tight(estimated, free),
        more >= free && is_tight(estimated, more) ==> is_tight(estimated, free),
{
}

/// The size of a collection is the recorded one of the path's second segment; a path without one has
/// none.
pub proof fn law_collection_size(data: Seq<u8>, segments: Seq<Seq<char>>)
    ensures
        segments.len() < 2 ==> collection_size(data, segments) == 0,
        segments.len() >= 2 && recorded_size(data, segments[1]) is None ==> collection_size(
            data,
            segments,
        ) == 0,
        segments.len() >= 2 && recorded_size(data, segments[1]) is Some ==> Some(
            collection_size(data, segments),
        ) == recorded_size(data, segments[1]),
{
}

/// A file's place is that of its URL's path.
pub proof fn law_place_by_path(url: Seq<char>, loose: bool)
    ensures
        url_path_segments(url) is None ==> dest_of(url, loose) is None,
        url_path_segments(url) matches Some(segments) ==> dest_of(url, loose) == dest_names(
            segments,
            loose,
        ),
{
}

proof fn lemma_pieces_plain(text: Seq<char>, i: int)
    requires
        0 <= i < split_on(text, '/').len(),
    ensures
        !split_on(text, '/')[i].contains('/'),
    decreases text.len(),
{
    if !text.contains('/') {
        law_split(text, '/', text);
    } else {
        law_last_index(text, '/');
        let at = last_index_of(text, '/')->0;
        let a = text.take(at);
        let b = text.skip(at + 1);
        assert(a.push('/') + b =~= text);
        law_split(a, '/', b);
        if i < split_on(a, '/').len() {
            lemma_pieces_plain(a, i);
        } else {
            lemma_pieces_plain(b, i - split_on(a, '/').len());
        }
    }
}

proof fn lemma_names_plain(segments: Seq<Seq<char>>, loose: bool, i: int)
    requires
        0 <= i < decoded_names(segments, loose).len(),
    ensures
        !decoded_names(segments, loose)[i].contains('/'),
    decreases segments.len(),
{
    let head = decoded_names(segments.drop_last(), loose);
    if i < head.len() {
        lemma_names_plain(segments.drop_last(), loose, i);
    } else {
        lemma_pieces_plain(decoded_segment(segments.last(), loose), i - head.len());
    }
}

/// A file is refused a place only where one of its names is empty or leads to the folder itself or
/// to its parent; any other name, whatever it holds, has its place.
pub proof fn law_refused_only_outside(segments: Seq<Seq<char>>, loose: bool)
    requires
        non_empty(segments).len() >= 3,
    ensures
        ({
            let names = decoded_names(non_empty(segments).skip(2), loose);
            (forall|k: int|
                0 <= k < names.len() ==> (#[trigger] names[k]).len() > 0 && names[k] != "."@
                    && names[k] != ".."@) ==> dest_names(segments, loose) == Some(names)
        }),
{
    let kept = non_empty(segments).skip(2);
    let names = decoded_names(kept, loose);
    if forall|k: int|
        0 <= k < names.len() ==> (#[trigger] names[k]).len() > 0 && names[k] != "."@ && names[k]
            != ".."@ {
        assert forall|k: int| 0 <= k < names.len() implies is_plain_name(#[trigger] names[k]) by {
            lemma_names_plain(kept, loose, k);
        }
    }
}

} // verus!
