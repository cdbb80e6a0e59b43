//! Big-endian integers and the few byte-string operations that keys are built from.
//!
//! Every multi-byte number in a key is written most significant byte first, so
//! that comparing two keys byte by byte compares their fields in order.

use vstd::prelude::*;

verus! {

/// The `n` low base-256 digits of `x`, most significant first.
pub open spec fn be_bytes(x: nat, n: nat) -> Seq<u8>
    decreases n,
{
    if n == 0 {
        Seq::empty()
    } else {
        be_bytes(x / 256, (n - 1) as nat).push((x % 256) as u8)
    }
}

/// The number that `s` writes in base 256, most significant digit first.
pub open spec fn be_value(s: Seq<u8>) -> nat
    decreases s.len(),
{
    if s.len() == 0 {
        0
    } else {
        be_value(s.drop_last()) * 256 + s.last() as nat
    }
}

/// `x` has no more than `n` base-256 digits.
pub open spec fn fits_in(x: nat, n: nat) -> bool
    decreases n,
{
    if n == 0 {
        x == 0
    } else {
        fits_in(x / 256, (n - 1) as nat)
    }
}

/// A number is written in as many bytes as asked for.
pub proof fn lemma_be_bytes_len(x: nat, n: nat)
    ensures
        be_bytes(x, n).len() == n,
    decreases n,
{
    if n > 0 {
        lemma_be_bytes_len(x / 256, (n - 1) as nat);
    }
}

/// Reading back the digits of a number that fits gives the number.
pub proof fn lemma_be_value_of_bytes(x: nat, n: nat)
    requires
        fits_in(x, n),
    ensures
        be_value(be_bytes(x, n)) == x,
    decreases n,
{
    if n > 0 {
        let head = be_bytes(x / 256, (n - 1) as nat);
        lemma_be_value_of_bytes(x / 256, (n - 1) as nat);
        assert(be_bytes(x, n).drop_last() =~= head);
    }
}

/// Writing the number that a byte string reads as gives the byte string back.
pub proof fn lemma_be_bytes_of_value(s: Seq<u8>)
    ensures
        fits_in(be_value(s), s.len()),
        be_bytes(be_value(s), s.len()) == s,
    decreases s.len(),
{
    if s.len() > 0 {
        lemma_be_bytes_of_value(s.drop_last());
        let high = be_value(s.drop_last());
        let low = s.last() as nat;
        assert((high * 256 + low) / 256 == high);
        assert((high * 256 + low) % 256 == low);
        assert(s.drop_last().push(s.last()) =~= s);
    } else {
        assert(be_bytes(0, 0) =~= s);
    }
}

/// A `u16` fits in two bytes.
pub proof fn lemma_u16_fits(x: u16)
    ensures
        fits_in(x as nat, 2),
{
    reveal_with_fuel(fits_in, 3);
}

/// A `u64` fits in eight bytes.
pub proof fn lemma_u64_fits(x: u64)
    ensures
        fits_in(x as nat, 8),
{
    reveal_with_fuel(fits_in, 9);
}

/// A value of two digits is below 2^16, one of eight digits below 2^64.
pub proof fn lemma_fits_bound(x: nat, n: nat)
    requires
        fits_in(x, n),
    ensures
        n == 2 ==> x <= u16::MAX,
        n == 8 ==> x <= u64::MAX,
{
    if n == 2 {
        reveal_with_fuel(fits_in, 3);
    }
    if n == 8 {
        reveal_with_fuel(fits_in, 9);
    }
}

/// The two bytes of `x`, most significant first.
pub fn u16_to_be(x: u16) -> (out: [u8; 2])
    ensures
        out@ == be_bytes(x as nat, 2),
{
    let out = [(x / 256) as u8, (x % 256) as u8];
    proof {
        reveal_with_fuel(be_bytes, 3);
        assert(out@ =~= be_bytes(x as nat, 2));
    }
    out
}

/// The eight bytes of `x`, most significant first.
pub fn u64_to_be(x: u64) -> (out: [u8; 8])
    ensures
        out@ == be_bytes(x as nat, 8),
{
    let mut out = [0u8; 8];
    let mut rest = x;
    let mut i: usize = 8;
    while i > 0
        invariant
            i <= 8,
            be_bytes(x as nat, 8) =~= be_bytes(rest as nat, i as nat) + out@.subrange(i as int, 8),
        decreases i,
    {
        proof {
            lemma_be_bytes_len(rest as nat / 256, (i - 1) as nat);
        }
        i = i - 1;
        out[i] = (rest % 256) as u8;
        rest = rest / 256;
    }
    out
}

/// The number that two bytes write, most significant first.
pub fn u16_from_be(bytes: &[u8]) -> (x: u16)
    requires
        bytes@.len() == 2,
    ensures
        x as nat == be_value(bytes@),
{
    proof {
        let s = bytes@;
        reveal_with_fuel(be_value, 3);
        assert(s.drop_last().drop_last().len() == 0);
        assert(s.drop_last().last() == s[0]);
    }
    bytes[0] as u16 * 256 + bytes[1] as u16
}

/// The number that eight bytes write, most significant first.
pub fn u64_from_be(bytes: &[u8]) -> (x: u64)
    requires
        bytes@.len() == 8,
    ensures
        x as nat == be_value(bytes@),
{
    let mut x: u64 = 0;
    let mut i: usize = 0;
    while i < 8
        invariant
            i <= 8,
            bytes@.len() == 8,
            x as nat == be_value(bytes@.take(i as int)),
            fits_in(x as nat, i as nat),
        decreases 8 - i,
    {
        proof {
            let next = bytes@.take(i + 1);
            assert(next.drop_last() =~= bytes@.take(i as int));
            assert(next.last() == bytes@[i as int]);
            lemma_be_bytes_of_value(next);
            if i < 7 {
                lemma_fits_widen(be_value(next), (i + 1) as nat, 8);
            }
            lemma_fits_bound(be_value(next), 8);
        }
        x = x * 256 + bytes[i] as u64;
        i = i + 1;
    }
    proof {
        assert(bytes@.take(8) =~= bytes@);
    }
    x
}

/// A number that fits in `n` digits fits in any larger count of digits.
pub proof fn lemma_fits_widen(x: nat, n: nat, m: nat)
    requires
        fits_in(x, n),
        n <= m,
    ensures
        fits_in(x, m),
    decreases m,
{
    if n == 0 {
        lemma_zero_fits(m);
    } else {
        lemma_fits_widen(x / 256, (n - 1) as nat, (m - 1) as nat);
    }
}

/// Zero fits in any count of bytes.
pub proof fn lemma_zero_fits(m: nat)
    ensures
        fits_in(0, m),
    decreases m,
{
    if m > 0 {
        lemma_zero_fits((m - 1) as nat);
    }
}

/// Copies `src` into `out`, starting at index `at`.
pub fn write_at<const N: usize>(out: &mut [u8; N], at: usize, src: &[u8])
    requires
        at + src@.len() <= N,
    ensures
        final(out)@ == old(out)@.subrange(0, at as int) + src@ + old(out)@.subrange(
            at + src@.len(),
            N as int,
        ),
{
    let mut i: usize = 0;
    while i < src.len()
        invariant
            i <= src@.len(),
            at + src@.len() <= N,
            out@ == old(out)@.subrange(0, at as int) + src@.subrange(0, i as int) + old(
                out,
            )@.subrange(at + i, N as int),
        decreases src@.len() - i,
    {
        out[at + i] = src[i];
        i = i + 1;
    }
}

/// Appends `src` to `out`.
pub fn append(out: &mut Vec<u8>, src: &[u8])
    ensures
        final(out)@ == old(out)@ + src@,
{
    let mut i: usize = 0;
    while i < src.len()
        invariant
            i <= src@.len(),
            out@ == old(out)@ + src@.subrange(0, i as int),
        decreases src@.len() - i,
    {
        out.push(src[i]);
        i = i + 1;
    }
}

/// Whether `key` begins with the bytes of `prefix`.
pub fn starts_with(key: &[u8], prefix: &[u8]) -> (b: bool)
    ensures
        b == prefix@.is_prefix_of(key@),
{
    if key.len() < prefix.len() {
        return false;
    }
    let mut i: usize = 0;
    while i < prefix.len()
        invariant
            i <= prefix@.len() <= key@.len(),
            forall|j: int| 0 <= j < i ==> key@[j] == prefix@[j],
        decreases prefix@.len() - i,
    {
        if key[i] != prefix[i] {
            assert(key@.subrange(0, prefix@.len() as int)[i as int] != prefix@[i as int]);
            return false;
        }
        i = i + 1;
    }
    true
}

/// Whether `a` and `b` hold the same bytes.
pub fn same_bytes(a: &[u8], b: &[u8]) -> (same: bool)
    ensures
        same == (a@ == b@),
{
    let same = a.len() == b.len() && starts_with(a, b);
    proof {
        if a@.len() == b@.len() {
            assert(a@.subrange(0, a@.len() as int) =~= a@);
        }
    }
    same
}

} // verus!
