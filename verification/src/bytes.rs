//! Byte strings: little-endian numbers and length prefixes.

use vstd::prelude::*;

verus! {

/// The `k` lowest bytes of a number, the lowest first.
pub open spec fn little_endian(n: nat, k: nat) -> Seq<u8>
    decreases k,
{
    if k == 0 {
        Seq::empty()
    } else {
        seq![(n % 256) as u8] + little_endian(n / 256, (k - 1) as nat)
    }
}

/// Bytes behind their number, which takes eight bytes.
pub open spec fn length_prefixed(bytes: Seq<u8>) -> Seq<u8> {
    little_endian(bytes.len(), 8) + bytes
}

/// Appends the `k` lowest bytes of a number.
pub fn push_little_endian(out: &mut Vec<u8>, n: u64, k: u32)
    ensures
        final(out)@ == old(out)@ + little_endian(n as nat, k as nat),
{
    let mut rest: u64 = n;
    let mut i: u32 = 0;
    let ghost start = out@;
    assert(out@ =~= start + Seq::<u8>::empty());
    assert(little_endian(n as nat, k as nat) =~= Seq::<u8>::empty() + little_endian(
        n as nat,
        k as nat,
    ));
    while i < k
        invariant
            i <= k,
            out@ + little_endian(rest as nat, (k - i) as nat) == start + little_endian(
                n as nat,
                k as nat,
            ),
        decreases k - i,
    {
        let ghost before = out@;
        out.push((rest % 256) as u8);
        assert(out@ + little_endian(rest as nat / 256, (k - i - 1) as nat) =~= before
            + little_endian(rest as nat, (k - i) as nat));
        rest = rest / 256;
        i = i + 1;
    }
    assert(out@ =~= out@ + little_endian(rest as nat, 0));
}

/// Appends bytes.
pub fn push_bytes(out: &mut Vec<u8>, bytes: &[u8])
    ensures
        final(out)@ == old(out)@ + bytes@,
{
    let mut i: usize = 0;
    let ghost start = out@;
    while i < bytes.len()
        invariant
            i <= bytes@.len(),
            out@ == start + bytes@.take(i as int),
        decreases bytes@.len() - i,
    {
        out.push(bytes[i]);
        i = i + 1;
        assert(out@ =~= start + bytes@.take(i as int));
    }
    assert(bytes@.take(i as int) =~= bytes@);
}

/// Appends bytes behind their number.
pub fn push_length_prefixed(out: &mut Vec<u8>, bytes: &[u8])
    ensures
        final(out)@ == old(out)@ + length_prefixed(bytes@),
{
    push_little_endian(out, bytes.len() as u64, 8);
    push_bytes(out, bytes);
    assert(out@ =~= old(out)@ + length_prefixed(bytes@));
}

/// The number that bytes stand for, the lowest first.
pub open spec fn number_of(bytes: Seq<u8>) -> nat
    decreases bytes.len(),
{
    if bytes.len() == 0 {
        0
    } else {
        bytes[0] as nat + 256 * number_of(bytes.drop_first())
    }
}

/// The bytes of a number stand for it, lowest first, where there are enough of them.
pub proof fn lemma_bytes_of_a_number(n: nat, k: nat)
    ensures
        little_endian(n, k).len() == k,
        n < vstd::arithmetic::power::pow(256, k) ==> number_of(little_endian(n, k)) == n,
    decreases k,
{
    let r = little_endian(n, k);
    if k == 0 {
        vstd::arithmetic::power::lemma_pow0(256);
    } else {
        let j = (k - 1) as nat;
        lemma_bytes_of_a_number(n / 256, j);
        assert(r.drop_first() =~= little_endian(n / 256, j));
        assert(r[0] == (n % 256) as u8);
        vstd::arithmetic::power::lemma_pow1(256);
        reveal(vstd::arithmetic::power::pow);
        assert(vstd::arithmetic::power::pow(256, k) == 256 * vstd::arithmetic::power::pow(256, j));
    }
}

/// Bytes behind their number cannot be taken for others, whatever follows them.
pub proof fn lemma_bytes_stay_apart(a: Seq<u8>, b: Seq<u8>, x: Seq<u8>, y: Seq<u8>)
    requires
        a.len() <= u64::MAX,
        b.len() <= u64::MAX,
        length_prefixed(a) + x == length_prefixed(b) + y,
    ensures
        a == b,
        x == y,
{
    let whole = length_prefixed(a) + x;
    lemma_bytes_of_a_number(a.len(), 8);
    lemma_bytes_of_a_number(b.len(), 8);
    assert(vstd::arithmetic::power::pow(256, 8) == 0x1_0000_0000_0000_0000) by {
        reveal_with_fuel(vstd::arithmetic::power::pow, 9);
    }
    assert(whole.take(8) =~= little_endian(a.len(), 8));
    assert(whole.take(8) =~= little_endian(b.len(), 8));
    assert(a.len() == b.len());
    assert(whole.subrange(8, 8 + a.len() as int) =~= a);
    assert(whole.subrange(8, 8 + a.len() as int) =~= b);
    assert(whole.skip(8 + a.len() as int) =~= x);
    assert(whole.skip(8 + a.len() as int) =~= y);
}

} // verus!
