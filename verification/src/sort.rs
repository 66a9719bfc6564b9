//! Stable sorting by a rank and a text.

use crate::text::texts;
use vstd::prelude::*;
use vstd::utf8::{encode_utf8, encode_utf8_decode_utf8};

verus! {

/// Whether `a` comes before `b`, byte by byte.
pub open spec fn bytes_before(a: Seq<u8>, b: Seq<u8>) -> bool
    decreases a.len(),
{
    if b.len() == 0 {
        false
    } else if a.len() == 0 {
        true
    } else if a[0] != b[0] {
        a[0] < b[0]
    } else {
        bytes_before(a.skip(1), b.skip(1))
    }
}

/// Whether text `a` comes before text `b`.
pub open spec fn text_before(a: Seq<char>, b: Seq<char>) -> bool {
    bytes_before(encode_utf8(a), encode_utf8(b))
}

/// Whether the key `a` comes before the key `b`: by rank, then by text.
pub open spec fn key_before(a: (int, Seq<char>), b: (int, Seq<char>)) -> bool {
    a.0 < b.0 || (a.0 == b.0 && text_before(a.1, b.1))
}

/// Whether item `i` is placed before item `j`: by key, and where the keys are alike by position.
pub open spec fn precedes(keys: Seq<(int, Seq<char>)>, i: int, j: int) -> bool {
    key_before(keys[i], keys[j]) || (!key_before(keys[j], keys[i]) && i < j)
}

/// `order` lists the positions `from..to`, each once, in their stable order.
pub open spec fn orders(keys: Seq<(int, Seq<char>)>, order: Seq<int>, from: int, to: int) -> bool {
    &&& order.len() == to - from
    &&& forall|i: int| from <= i < to ==> #[trigger] order.contains(i)
    &&& forall|a: int| 0 <= a < order.len() ==> from <= #[trigger] order[a] < to
    &&& forall|a: int, b: int|
        0 <= a < b < order.len() ==> precedes(keys, #[trigger] order[a], #[trigger] order[b])
}

/// `order` lists the positions of `keys` in their stable order.
pub open spec fn stable_order(keys: Seq<(int, Seq<char>)>, order: Seq<int>) -> bool {
    orders(keys, order, 0, keys.len() as int)
}

pub open spec fn positions(order: Seq<usize>) -> Seq<int> {
    order.map_values(|i: usize| i as int)
}

proof fn lemma_before_transitive(a: Seq<u8>, b: Seq<u8>, c: Seq<u8>)
    ensures
        bytes_before(a, b) && bytes_before(b, c) ==> bytes_before(a, c),
        bytes_before(a, b) ==> !bytes_before(b, a),
        !bytes_before(a, b) && !bytes_before(b, a) ==> a == b,
    decreases a.len() + b.len(),
{
    if a.len() > 0 && b.len() > 0 {
        lemma_before_transitive(a.skip(1), b.skip(1), c.skip(1));
        if a[0] == b[0] && a.skip(1) == b.skip(1) {
            assert(a =~= seq![a[0]] + a.skip(1));
            assert(b =~= seq![b[0]] + b.skip(1));
        }
    } else if a.len() == 0 && b.len() == 0 {
        assert(a =~= b);
    }
}

/// Of two different texts one comes before the other.
pub proof fn lemma_text_order(a: Seq<char>, b: Seq<char>)
    ensures
        text_before(a, b) || text_before(b, a) || a == b,
        !(text_before(a, b) && text_before(b, a)),
{
    lemma_before_transitive(encode_utf8(a), encode_utf8(b), Seq::empty());
    encode_utf8_decode_utf8(a);
    encode_utf8_decode_utf8(b);
}

proof fn lemma_precedes(keys: Seq<(int, Seq<char>)>, i: int, j: int, k: int)
    ensures
        precedes(keys, i, j) && precedes(keys, j, k) ==> precedes(keys, i, k),
        precedes(keys, i, j) ==> !precedes(keys, j, i),
        i != j ==> precedes(keys, i, j) || precedes(keys, j, i),
{
    let a = encode_utf8(keys[i].1);
    let b = encode_utf8(keys[j].1);
    let c = encode_utf8(keys[k].1);
    lemma_before_transitive(a, b, c);
    lemma_before_transitive(b, a, c);
    lemma_before_transitive(b, c, a);
    lemma_before_transitive(a, c, b);
    lemma_before_transitive(c, b, a);
    lemma_before_transitive(c, a, b);
}

/// What an item is sorted by.
pub struct SortKey {
    pub rank: u8,
    pub text: String,
}

impl View for SortKey {
    type V = (int, Seq<char>);

    open spec fn view(&self) -> (int, Seq<char>) {
        (self.rank as int, self.text@)
    }
}

pub open spec fn keys_view(keys: Seq<SortKey>) -> Seq<(int, Seq<char>)> {
    keys.map_values(|k: SortKey| k@)
}

/// Whether text `a` comes before text `b`.
pub fn comes_before(a: &str, b: &str) -> (yes: bool)
    ensures
        yes == text_before(a@, b@),
{
    let x = a.as_bytes();
    let y = b.as_bytes();
    let mut i: usize = 0;
    assert(x@.skip(0) =~= x@);
    assert(y@.skip(0) =~= y@);
    while i < x.len() && i < y.len()
        invariant
            x@ == encode_utf8(a@),
            y@ == encode_utf8(b@),
            i <= x@.len(),
            i <= y@.len(),
            bytes_before(x@, y@) == bytes_before(x@.skip(i as int), y@.skip(i as int)),
        decreases x@.len() - i,
    {
        assert(x@.skip(i as int).skip(1) =~= x@.skip(i + 1));
        assert(y@.skip(i as int).skip(1) =~= y@.skip(i + 1));
        if x[i] != y[i] {
            return x[i] < y[i];
        }
        i = i + 1;
    }
    i < y.len()
}

/// Whether item `i` comes before the later item `j`, or is like it.
fn stays_before(keys: &Vec<SortKey>, i: usize, j: usize) -> (yes: bool)
    requires
        i < j < keys@.len(),
    ensures
        yes == precedes(keys_view(keys@), i as int, j as int),
{
    let a = &keys[i];
    let b = &keys[j];
    if a.rank != b.rank {
        a.rank < b.rank
    } else {
        proof {
            lemma_before_transitive(encode_utf8(a.text@), encode_utf8(b.text@), Seq::empty());
        }
        !comes_before(b.text.as_str(), a.text.as_str())
    }
}

/// Merges two runs whose positions are in order.
fn merge(
    keys: &Vec<SortKey>,
    left: &Vec<usize>,
    right: &Vec<usize>,
    Ghost(from): Ghost<int>,
    Ghost(mid): Ghost<int>,
    Ghost(to): Ghost<int>,
) -> (out: Vec<usize>)
    requires
        0 <= from <= mid <= to <= keys@.len(),
        orders(keys_view(keys@), positions(left@), from, mid),
        orders(keys_view(keys@), positions(right@), mid, to),
    ensures
        orders(keys_view(keys@), positions(out@), from, to),
{
    let ghost ks = keys_view(keys@);
    let ghost l = positions(left@);
    let ghost r = positions(right@);
    let mut out: Vec<usize> = Vec::new();
    let mut i: usize = 0;
    let mut j: usize = 0;
    let n: usize = left.len();
    let m: usize = right.len();
    while i < n || j < m
        invariant
            0 <= from <= mid <= to <= keys@.len(),
            ks == keys_view(keys@),
            l == positions(left@),
            r == positions(right@),
            n == left@.len() == l.len(),
            m == right@.len() == r.len(),
            orders(ks, l, from, mid),
            orders(ks, r, mid, to),
            i <= n,
            j <= m,
            out@.len() == i + j,
            forall|a: int| 0 <= a < out@.len() ==> from <= #[trigger] positions(out@)[a] < to,
            forall|a: int| 0 <= a < i ==> positions(out@).contains(#[trigger] l[a]),
            forall|a: int| 0 <= a < j ==> positions(out@).contains(#[trigger] r[a]),
            forall|a: int, b: int|
                0 <= a < b < out@.len() ==> precedes(
                    ks,
                    #[trigger] positions(out@)[a],
                    #[trigger] positions(out@)[b],
                ),
            forall|a: int, b: int|
                0 <= a < out@.len() && i <= b < n ==> precedes(
                    ks,
                    #[trigger] positions(out@)[a],
                    #[trigger] l[b],
                ),
            forall|a: int, b: int|
                0 <= a < out@.len() && j <= b < m ==> precedes(
                    ks,
                    #[trigger] positions(out@)[a],
                    #[trigger] r[b],
                ),
        decreases n - i + (m - j),
    {
        let ghost before = positions(out@);
        proof {
            if i < n {
                assert(from <= l[i as int] < mid);
            }
            if j < m {
                assert(mid <= r[j as int] < to);
            }
        }
        let take_left: bool = j >= m || (i < n && stays_before(keys, left[i], right[j]));
        let ghost x = if take_left { l[i as int] } else { r[j as int] };
        if take_left {
            out.push(left[i]);
        } else {
            out.push(right[j]);
        }
        proof {
            let after = positions(out@);
            assert(after =~= before.push(x));
            assert forall|b: int| i <= b < n && l[b] != x implies precedes(ks, x, #[trigger] l[b]) by {
                if take_left {
                    assert(b > i);
                } else {
                    lemma_precedes(ks, l[i as int], r[j as int], 0);
                    if b > i {
                        lemma_precedes(ks, x, l[i as int], l[b]);
                    }
                }
            }
            assert forall|b: int| j <= b < m && r[b] != x implies precedes(ks, x, #[trigger] r[b]) by {
                if take_left {
                    if b > j {
                        lemma_precedes(ks, x, r[j as int], r[b]);
                    }
                } else {
                    assert(b > j);
                }
            }
            assert forall|a: int| 0 <= a < i implies after.contains(#[trigger] l[a]) by {
                let k = choose|k: int| 0 <= k < before.len() && before[k] == l[a];
                assert(after[k] == l[a]);
            }
            assert forall|a: int| 0 <= a < j implies after.contains(#[trigger] r[a]) by {
                let k = choose|k: int| 0 <= k < before.len() && before[k] == r[a];
                assert(after[k] == r[a]);
            }
            assert(after[before.len() as int] == x);
            assert forall|a: int, b: int| 0 <= a < b < after.len() implies precedes(
                ks,
                #[trigger] after[a],
                #[trigger] after[b],
            ) by {
                if b < before.len() {
                    assert(precedes(ks, before[a], before[b]));
                } else {
                    assert(after[a] == before[a]);
                    if take_left {
                        assert(precedes(ks, before[a], l[i as int]));
                    } else {
                        assert(precedes(ks, before[a], r[j as int]));
                    }
                }
            }
        }
        if take_left {
            proof {
                assert forall|a: int, b: int| 0 <= a < out@.len() && i + 1 <= b < n implies precedes(
                    ks,
                    #[trigger] positions(out@)[a],
                    #[trigger] l[b],
                ) by {
                    if a == before.len() {
                        assert(precedes(ks, l[i as int], l[b]));
                    } else {
                        assert(precedes(ks, before[a], l[b]));
                    }
                }
                assert forall|a: int, b: int| 0 <= a < out@.len() && j <= b < m implies precedes(
                    ks,
                    #[trigger] positions(out@)[a],
                    #[trigger] r[b],
                ) by {
                    if a < before.len() {
                        assert(precedes(ks, before[a], r[b]));
                    } else {
                        assert(mid <= r[b]);
                    }
                }
            }
            i = i + 1;
        } else {
            proof {
                assert forall|a: int, b: int| 0 <= a < out@.len() && j + 1 <= b < m implies precedes(
                    ks,
                    #[trigger] positions(out@)[a],
                    #[trigger] r[b],
                ) by {
                    if a == before.len() {
                        assert(precedes(ks, r[j as int], r[b]));
                    } else {
                        assert(precedes(ks, before[a], r[b]));
                    }
                }
                assert forall|a: int, b: int| 0 <= a < out@.len() && i <= b < n implies precedes(
                    ks,
                    #[trigger] positions(out@)[a],
                    #[trigger] l[b],
                ) by {
                    if a < before.len() {
                        assert(precedes(ks, before[a], l[b]));
                    } else {
                        assert(l[b] < mid);
                    }
                }
            }
            j = j + 1;
        }
    }
    proof {
        let o = positions(out@);
        assert forall|p: int| from <= p < to implies #[trigger] o.contains(p) by {
            if p < mid {
                assert(l.contains(p));
                let a = choose|a: int| 0 <= a < l.len() && l[a] == p;
                assert(o.contains(l[a]));
            } else {
                assert(r.contains(p));
                let a = choose|a: int| 0 <= a < r.len() && r[a] == p;
                assert(o.contains(r[a]));
            }
        }
    }
    out
}

fn sort_range(keys: &Vec<SortKey>, from: usize, to: usize) -> (order: Vec<usize>)
    requires
        from <= to <= keys@.len(),
    ensures
        orders(keys_view(keys@), positions(order@), from as int, to as int),
    decreases to - from,
{
    let mut order: Vec<usize> = Vec::new();
    if to - from >= 2 {
        let mid: usize = from + (to - from) / 2;
        let left = sort_range(keys, from, mid);
        let right = sort_range(keys, mid, to);
        return merge(keys, &left, &right, Ghost(from as int), Ghost(mid as int), Ghost(to as int));
    }
    if from < to {
        order.push(from);
        assert(positions(order@)[0] == from);
    }
    order
}

/// The positions of the keys in their stable order.
pub fn sort_by_key(keys: &Vec<SortKey>) -> (order: Vec<usize>)
    ensures
        stable_order(keys_view(keys@), positions(order@)),
{
    sort_range(keys, 0, keys.len())
}

/// There is one stable order only.
pub proof fn law_stable_order_unique(keys: Seq<(int, Seq<char>)>, a: Seq<int>, b: Seq<int>)
    requires
        stable_order(keys, a),
        stable_order(keys, b),
    ensures
        a == b,
{
    lemma_order_prefix(keys, a, b, a.len() as int);
    assert(a =~= b);
}

proof fn lemma_order_prefix(keys: Seq<(int, Seq<char>)>, a: Seq<int>, b: Seq<int>, n: int)
    requires
        stable_order(keys, a),
        stable_order(keys, b),
        0 <= n <= a.len(),
    ensures
        forall|i: int| 0 <= i < n ==> a[i] == b[i],
    decreases n,
{
    if n > 0 {
        let k = n - 1;
        lemma_order_prefix(keys, a, b, k);
        if a[k] != b[k] {
            assert(b.contains(a[k]));
            let p = choose|p: int| 0 <= p < b.len() && b[p] == a[k];
            assert(a.contains(b[k]));
            let q = choose|q: int| 0 <= q < a.len() && a[q] == b[k];
            if p < k {
                assert(a[p] == a[k]);
                lemma_precedes(keys, a[p], a[k], 0);
            } else if q < k {
                assert(b[q] == b[k]);
                lemma_precedes(keys, b[q], b[k], 0);
            } else {
                assert(precedes(keys, b[k], b[p]));
                assert(precedes(keys, a[k], a[q]));
                lemma_precedes(keys, a[k], b[k], 0);
            }
        }
    }
}

/// What texts alone are sorted by.
pub open spec fn text_keys(list: Seq<Seq<char>>) -> Seq<(int, Seq<char>)> {
    list.map_values(|t: Seq<char>| (0int, t))
}

/// `out` is the list in the given order.
pub open spec fn texts_in_order(list: Seq<Seq<char>>, order: Seq<int>, out: Seq<Seq<char>>) -> bool {
    &&& out.len() == order.len()
    &&& forall|i: int| 0 <= i < order.len() ==> #[trigger] out[i] == list[order[i]]
}

/// `out` is the list, sorted.
pub open spec fn sorted_texts(list: Seq<Seq<char>>, out: Seq<Seq<char>>) -> bool {
    exists|order: Seq<int>| #[trigger]
        stable_order(text_keys(list), order) && texts_in_order(list, order, out)
}

/// Sorts texts.
pub fn sort_texts(list: Vec<String>) -> (out: Vec<String>)
    ensures
        sorted_texts(texts(list@), texts(out@)),
{
    let ghost view = texts(list@);
    let mut keys: Vec<SortKey> = Vec::new();
    let mut i: usize = 0;
    assert(keys_view(keys@) =~= text_keys(view).take(0));
    while i < list.len()
        invariant
            view == texts(list@),
            i <= list@.len(),
            keys_view(keys@) == text_keys(view).take(i as int),
        decreases list@.len() - i,
    {
        let ghost before = keys_view(keys@);
        keys.push(SortKey { rank: 0, text: list[i].clone() });
        proof {
            assert(view[i as int] == list@[i as int]@);
            assert(keys_view(keys@) =~= before.push((0int, view[i as int])));
            assert(text_keys(view).take(i + 1) =~= text_keys(view).take(i as int).push(
                text_keys(view)[i as int],
            ));
        }
        i = i + 1;
    }
    assert(text_keys(view).take(list@.len() as int) =~= text_keys(view));
    let order = sort_by_key(&keys);
    let ghost o = positions(order@);
    let mut out: Vec<String> = Vec::new();
    let mut j: usize = 0;
    while j < order.len()
        invariant
            view == texts(list@),
            o == positions(order@),
            stable_order(text_keys(view), o),
            j <= order@.len(),
            out@.len() == j,
            forall|a: int| 0 <= a < j ==> (#[trigger] out@[a])@ == view[o[a]],
        decreases order@.len() - j,
    {
        assert(0 <= o[j as int] < text_keys(view).len());
        assert(view[o[j as int]] == list@[o[j as int]]@);
        out.push(list[order[j]].clone());
        j = j + 1;
    }
    assert(texts_in_order(view, o, texts(out@)));
    out
}

/// Sorting keeps the texts, and puts none before one that comes before it.
pub proof fn law_sorted(list: Seq<Seq<char>>, out: Seq<Seq<char>>)
    requires
        sorted_texts(list, out),
    ensures
        out.len() == list.len(),
        forall|t: Seq<char>| #[trigger] out.contains(t) <==> list.contains(t),
        forall|i: int, j: int|
            0 <= i < j < out.len() ==> !text_before(#[trigger] out[j], #[trigger] out[i]),
{
    let o = choose|order: Seq<int>| #[trigger]
        stable_order(text_keys(list), order) && texts_in_order(list, order, out);
    assert forall|t: Seq<char>| #[trigger] out.contains(t) <==> list.contains(t) by {
        if out.contains(t) {
            let i = choose|i: int| 0 <= i < out.len() && out[i] == t;
            assert(0 <= o[i] < list.len());
            assert(list[o[i]] == t);
        }
        if list.contains(t) {
            let p = choose|p: int| 0 <= p < list.len() && list[p] == t;
            assert(o.contains(p));
            let i = choose|i: int| 0 <= i < o.len() && o[i] == p;
            assert(out[i] == t);
        }
    }
    assert forall|i: int, j: int| 0 <= i < j < out.len() implies !text_before(
        #[trigger] out[j],
        #[trigger] out[i],
    ) by {
        assert(precedes(text_keys(list), o[i], o[j]));
        lemma_text_order(out[i], out[j]);
    }
}

/// Bytes are compared at the first place where they differ; where one runs out before, it comes
/// first.
pub proof fn law_bytes_order(same: Seq<u8>, x: u8, y: u8, a: Seq<u8>, b: Seq<u8>)
    ensures
        x < y ==> bytes_before(same.push(x) + a, same.push(y) + b) && !bytes_before(
            same.push(y) + b,
            same.push(x) + a,
        ),
        bytes_before(same, same.push(x) + a),
        !bytes_before(same.push(x) + a, same),
        !bytes_before(same, same),
    decreases same.len(),
{
    let p = same.push(x) + a;
    let q = same.push(y) + b;
    if same.len() > 0 {
        let rest = same.skip(1);
        law_bytes_order(rest, x, y, a, b);
        assert(p.skip(1) =~= rest.push(x) + a);
        assert(q.skip(1) =~= rest.push(y) + b);
        assert(p[0] == same[0] && q[0] == same[0]);
    }
}

/// Keys go by their rank first, and keys of one rank by their text. Of two keys neither of which
/// comes before the other, the one that stood first stays first.
pub proof fn law_keys_order(keys: Seq<(int, Seq<char>)>, order: Seq<int>, a: int, b: int)
    requires
        stable_order(keys, order),
        0 <= a < b < order.len(),
    ensures
        order.len() == keys.len(),
        0 <= order[a] < keys.len() && 0 <= order[b] < keys.len() && order[a] != order[b],
        keys[order[a]].0 <= keys[order[b]].0,
        keys[order[a]].0 == keys[order[b]].0 ==> !bytes_before(
            encode_utf8(keys[order[b]].1),
            encode_utf8(keys[order[a]].1),
        ),
        keys[order[a]] == keys[order[b]] ==> order[a] < order[b],
        forall|i: int| 0 <= i < keys.len() ==> #[trigger] order.contains(i),
{
    assert(precedes(keys, order[a], order[b]));
    lemma_text_order(keys[order[a]].1, keys[order[b]].1);
    lemma_text_order(keys[order[b]].1, keys[order[a]].1);
    lemma_text_order(keys[order[a]].1, keys[order[a]].1);
}

} // verus!
