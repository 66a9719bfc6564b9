//! Little-endian integers in byte buffers.

use vstd::arithmetic::div_mod::lemma_mod_breakdown;
use vstd::prelude::*;

verus! {

/// 256 to the power `width`.
pub open spec fn p256(width: nat) -> nat
    decreases width,
{
    if width == 0 {
        1
    } else {
        256 * p256((width - 1) as nat)
    }
}

/// The `width` low bytes of `n`, least significant first.
pub open spec fn le_bytes(n: nat, width: nat) -> Seq<u8>
    decreases width,
{
    if width == 0 {
        Seq::empty()
    } else {
        seq![(n % 256) as u8] + le_bytes(n / 256, (width - 1) as nat)
    }
}

/// The number that the bytes hold, least significant first.
pub open spec fn le_value(bytes: Seq<u8>) -> nat
    decreases bytes.len(),
{
    if bytes.len() == 0 {
        0
    } else {
        bytes[0] as nat + 256 * le_value(bytes.drop_first())
    }
}

pub proof fn lemma_le_len(n: nat, width: nat)
    ensures
        le_bytes(n, width).len() == width,
    decreases width,
{
    if width > 0 {
        lemma_le_len(n / 256, (width - 1) as nat);
    }
}

/// Reading back what was written gives the number again, where it fits.
pub proof fn lemma_le_round_trip(n: nat, width: nat)
    requires
        n < p256(width),
    ensures
        le_bytes(n, width).len() == width,
        le_value(le_bytes(n, width)) == n,
    decreases width,
{
    if width > 0 {
        lemma_le_round_trip(n / 256, (width - 1) as nat);
        assert(le_bytes(n, width).drop_first() =~= le_bytes(n / 256, (width - 1) as nat));
    }
}

pub proof fn lemma_le_value_bound(bytes: Seq<u8>)
    ensures
        le_value(bytes) < p256(bytes.len()),
    decreases bytes.len(),
{
    if bytes.len() > 0 {
        lemma_le_value_bound(bytes.drop_first());
    }
}

pub proof fn lemma_p256()
    ensures
        p256(1) == 0x100,
        p256(2) == 0x1_0000,
        p256(4) == 0x1_0000_0000,
        p256(8) == 0x1_0000_0000_0000_0000,
{
    reveal_with_fuel(p256, 9);
}

/// `width` bytes hold a number modulo 256 to the power `width`.
pub proof fn lemma_le_low(n: nat, width: nat)
    ensures
        p256(width) > 0,
        le_bytes(n % p256(width), width) == le_bytes(n, width),
    decreases width,
{
    if width > 0 {
        let p = p256((width - 1) as nat);
        lemma_le_low(n / 256, (width - 1) as nat);
        lemma_mod_breakdown(n as int, 256, p as int);
        assert(n % p256(width) == 256 * ((n / 256) % p) + n % 256);
    }
}

/// Appends the `width` low bytes of `n`.
pub fn push_le(out: &mut Vec<u8>, n: u64, width: usize)
    ensures
        final(out)@ == old(out)@ + le_bytes(n as nat, width as nat),
{
    let mut rest: u64 = n;
    let mut left: usize = width;
    assert(out@ + le_bytes(n as nat, width as nat) =~= old(out)@ + le_bytes(
        n as nat,
        width as nat,
    ));
    while left > 0
        invariant
            out@ + le_bytes(rest as nat, left as nat) == old(out)@ + le_bytes(
                n as nat,
                width as nat,
            ),
        decreases left,
    {
        let ghost before = out@;
        out.push((rest % 256) as u8);
        assert(out@ + le_bytes((rest / 256) as nat, (left - 1) as nat) =~= before + le_bytes(
            rest as nat,
            left as nat,
        ));
        rest = rest / 256;
        left = left - 1;
    }
    assert(out@ =~= out@ + le_bytes(rest as nat, 0));
}

/// The number in the `width` bytes at `pos`.
pub fn read_le(data: &[u8], pos: usize, width: usize) -> (n: u64)
    requires
        pos + width <= data@.len(),
        width <= 8,
    ensures
        n as nat == le_value(data@.subrange(pos as int, pos + width)),
        (n as nat) < p256(width as nat),
{
    let end: usize = data.len();
    let mut n: u64 = 0;
    let mut i: usize = width;
    assert(data@.subrange(pos + width, pos + width) =~= Seq::<u8>::empty());
    while i > 0
        invariant
            i <= width <= 8,
            pos + width <= end == data@.len(),
            n as nat == le_value(data@.subrange(pos + i, pos + width)),
        decreases i,
    {
        let ghost tail = data@.subrange(pos + i, pos + width);
        let ghost whole = data@.subrange(pos + i - 1, pos + width);
        proof {
            lemma_le_value_bound(tail);
            reveal_with_fuel(p256, 9);
            assert(whole.drop_first() =~= tail);
        }
        n = n * 256 + data[pos + i - 1] as u64;
        i = i - 1;
    }
    proof {
        lemma_le_value_bound(data@.subrange(pos as int, pos + width));
    }
    n
}

/// The low byte comes first.
pub proof fn law_little_endian(n: nat, a: u8, b: u8, c: u8, d: u8)
    ensures
        n < 0x1_0000 ==> le_bytes(n, 2) == seq![(n % 256) as u8, (n / 256) as u8],
        n < 0x1_0000_0000 ==> le_bytes(n, 4) == seq![
            (n % 256) as u8,
            (n / 256 % 256) as u8,
            (n / 65536 % 256) as u8,
            (n / 16777216) as u8,
        ],
        le_value(seq![a, b]) == a + 256 * b,
        le_value(seq![a, b, c, d]) == a + 256 * b + 65536 * c + 16777216 * d,
{
    reveal_with_fuel(le_bytes, 5);
    reveal_with_fuel(le_value, 5);
    if n < 0x1_0000 {
        assert(le_bytes(n, 2) =~= seq![(n % 256) as u8, (n / 256) as u8]);
    }
    if n < 0x1_0000_0000 {
        assert(n / 256 / 256 == n / 65536);
        assert(n / 256 / 256 / 256 == n / 16777216);
        assert(le_bytes(n, 4) =~= seq![
            (n % 256) as u8,
            (n / 256 % 256) as u8,
            (n / 65536 % 256) as u8,
            (n / 16777216) as u8,
        ]);
    }
    assert(seq![a, b].drop_first() =~= seq![b]);
    assert(seq![b].drop_first() =~= Seq::<u8>::empty());
    assert(seq![a, b, c, d].drop_first() =~= seq![b, c, d]);
    assert(seq![b, c, d].drop_first() =~= seq![c, d]);
    assert(seq![c, d].drop_first() =~= seq![d]);
    assert(seq![d].drop_first() =~= Seq::<u8>::empty());
}

/// Each byte carries 256 times the one before it, whatever the width.
pub proof fn law_le_step(n: nat, width: nat, b: u8, rest: Seq<u8>)
    ensures
        le_bytes(n, width + 1) == seq![(n % 256) as u8] + le_bytes(n / 256, width),
        le_bytes(n, 0) == Seq::<u8>::empty(),
        le_value(Seq::empty()) == 0,
        le_value(seq![b] + rest) == b + 256 * le_value(rest),
{
    assert((seq![b] + rest).drop_first() =~= rest);
}

} // verus!
