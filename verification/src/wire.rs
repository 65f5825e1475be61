//! Big-endian integers, the building block of every format in this crate.

use vstd::prelude::*;

verus! {

/// `256` to the power `n`: how many values `n` bytes can tell apart.
pub open spec fn pow256(n: nat) -> nat
    decreases n,
{
    if n == 0 {
        1
    } else {
        256 * pow256((n - 1) as nat)
    }
}

/// The `width` low-order bytes of `value`, most significant first.
pub open spec fn be_bytes(value: nat, width: nat) -> Seq<u8>
    decreases width,
{
    if width == 0 {
        Seq::empty()
    } else {
        be_bytes(value / 256, (width - 1) as nat).push((value % 256) as u8)
    }
}

/// The number that the bytes of `s` spell, most significant first.
pub open spec fn be_value(s: Seq<u8>) -> nat
    decreases s.len(),
{
    if s.len() == 0 {
        0
    } else {
        be_value(s.drop_last()) * 256 + s.last() as nat
    }
}

/// An encoding has the width that was asked for.
pub broadcast proof fn lemma_be_bytes_len(value: nat, width: nat)
    ensures
        #[trigger] be_bytes(value, width).len() == width,
    decreases width,
{
    if width > 0 {
        lemma_be_bytes_len(value / 256, (width - 1) as nat);
    }
}

/// A number of `n` bytes is below `256` to the power `n`.
pub proof fn lemma_be_value_bound(s: Seq<u8>)
    ensures
        be_value(s) < pow256(s.len()),
    decreases s.len(),
{
    if s.len() > 0 {
        lemma_be_value_bound(s.drop_last());
    }
}

/// Reading back what was written gives the value, cut to the width.
pub proof fn lemma_be_round_trip(value: nat, width: nat)
    ensures
        be_value(be_bytes(value, width)) == value % pow256(width),
    decreases width,
{
    if width > 0 {
        let shorter = (width - 1) as nat;
        lemma_be_round_trip(value / 256, shorter);
        let s = be_bytes(value, width);
        assert(s.drop_last() =~= be_bytes(value / 256, shorter));
        lemma_pow256_positive(shorter);
        vstd::arithmetic::div_mod::lemma_mod_breakdown(value as int, 256, pow256(shorter) as int);
        assert(256 * ((value / 256) % pow256(shorter)) == ((value / 256) % pow256(shorter)) * 256);
    } else {
        assert(value % 1 == 0);
    }
}

/// Powers of 256 are positive.
pub proof fn lemma_pow256_positive(n: nat)
    ensures
        pow256(n) >= 1,
    decreases n,
{
    if n > 0 {
        lemma_pow256_positive((n - 1) as nat);
    }
}

/// The powers that the formats use.
pub proof fn lemma_pow256_values()
    ensures
        pow256(1) == 0x100,
        pow256(2) == 0x1_0000,
        pow256(4) == 0x1_0000_0000,
        pow256(8) == 0x1_0000_0000_0000_0000,
{
    reveal_with_fuel(pow256, 9);
}

/// Appends the `width` low-order bytes of `value`, most significant first.
pub fn push_be(out: &mut Vec<u8>, value: u64, width: usize)
    ensures
        final(out)@ == old(out)@ + be_bytes(value as nat, width as nat),
    decreases width,
{
    if width > 0 {
        push_be(out, value / 256, width - 1);
        out.push((value % 256) as u8);
    }
    assert(out@ =~= old(out)@ + be_bytes(value as nat, width as nat));
}

/// Reads the `width` bytes that start at `pos`, most significant first.
pub fn read_be(buf: &[u8], pos: usize, width: usize) -> (r: u64)
    requires
        width <= 8,
        pos + width <= buf@.len(),
    ensures
        r as nat == be_value(buf@.subrange(pos as int, pos + width)),
{
    let mut acc: u64 = 0;
    let mut i: usize = 0;
    proof {
        lemma_pow256_values();
        assert(buf@.subrange(pos as int, pos + 0) =~= Seq::empty());
    }
    while i < width
        invariant
            i <= width <= 8,
            pos + width <= buf.len(),
            acc as nat == be_value(buf@.subrange(pos as int, pos + i)),
            pow256(8) == 0x1_0000_0000_0000_0000,
        decreases width - i,
    {
        let ghost next = buf@.subrange(pos as int, pos + i + 1);
        proof {
            assert(next.drop_last() =~= buf@.subrange(pos as int, pos + i));
            lemma_be_value_bound(next);
            lemma_pow256_monotonic((i + 1) as nat, 8);
        }
        acc = acc * 256 + buf[pos + i] as u64;
        i = i + 1;
    }
    acc
}

/// Powers of 256 grow with the exponent.
pub proof fn lemma_pow256_monotonic(a: nat, b: nat)
    requires
        a <= b,
    ensures
        pow256(a) <= pow256(b),
    decreases b - a,
{
    if a < b {
        lemma_pow256_monotonic(a, (b - 1) as nat);
    }
}

/// One byte more.
proof fn lemma_be_value_step(s: Seq<u8>, n: nat)
    requires
        0 < n <= s.len(),
    ensures
        be_value(s.take(n as int)) == be_value(s.take(n - 1)) * 256 + s[n - 1] as nat,
{
    assert(s.take(n as int).drop_last() =~= s.take(n - 1));
}

/// Two, four or eight bytes spell the number whose digits they are in base 256,
/// the most significant first.
pub proof fn law_bytes_spell_their_number(s: Seq<u8>)
    ensures
        s.len() == 2 ==> be_value(s) == s[0] * 0x100 + s[1],
        s.len() == 4 ==> be_value(s) == s[0] * 0x100_0000 + s[1] * 0x1_0000 + s[2] * 0x100 + s[3],
        s.len() == 8 ==> be_value(s) == s[0] * 0x100_0000_0000_0000 + s[1] * 0x1_0000_0000_0000
            + s[2] * 0x100_0000_0000 + s[3] * 0x1_0000_0000 + s[4] * 0x100_0000 + s[5] * 0x1_0000
            + s[6] * 0x100 + s[7],
{
    assert(s.take(s.len() as int) =~= s);
    assert(s.take(0) =~= Seq::empty());
    if s.len() >= 2 {
        lemma_be_value_step(s, 1);
        lemma_be_value_step(s, 2);
    }
    if s.len() >= 4 {
        lemma_be_value_step(s, 3);
        lemma_be_value_step(s, 4);
    }
    if s.len() >= 8 {
        lemma_be_value_step(s, 5);
        lemma_be_value_step(s, 6);
        lemma_be_value_step(s, 7);
        lemma_be_value_step(s, 8);
    }
}

/// A number that fits is written as its digits in base 256, the most significant
/// first: two, four or eight bytes that add up to it.
pub proof fn law_number_is_its_bytes(n: nat)
    ensures
        n < 0x1_0000 ==> ({
            let s = be_bytes(n, 2);
            s.len() == 2 && s[0] * 0x100 + s[1] == n
        }),
        n < 0x1_0000_0000 ==> ({
            let s = be_bytes(n, 4);
            s.len() == 4 && s[0] * 0x100_0000 + s[1] * 0x1_0000 + s[2] * 0x100 + s[3] == n
        }),
        n < 0x1_0000_0000_0000_0000 ==> ({
            let s = be_bytes(n, 8);
            s.len() == 8 && s[0] * 0x100_0000_0000_0000 + s[1] * 0x1_0000_0000_0000 + s[2]
                * 0x100_0000_0000 + s[3] * 0x1_0000_0000 + s[4] * 0x100_0000 + s[5] * 0x1_0000
                + s[6] * 0x100 + s[7] == n
        }),
{
    broadcast use lemma_be_bytes_len;

    lemma_pow256_values();
    if n < 0x1_0000 {
        lemma_be_round_trip(n, 2);
        law_bytes_spell_their_number(be_bytes(n, 2));
    }
    if n < 0x1_0000_0000 {
        lemma_be_round_trip(n, 4);
        law_bytes_spell_their_number(be_bytes(n, 4));
    }
    if n < 0x1_0000_0000_0000_0000 {
        lemma_be_round_trip(n, 8);
        law_bytes_spell_their_number(be_bytes(n, 8));
    }
}

} // verus!
