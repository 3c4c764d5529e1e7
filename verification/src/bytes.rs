//! Little-endian numbers in byte sequences.
use vstd::prelude::*;

verus! {

/// `256^n`.
pub open spec fn byte_range(n: nat) -> nat
    decreases n,
{
    if n == 0 {
        1
    } else {
        256 * byte_range((n - 1) as nat)
    }
}

/// The number that a sequence of bytes stands for, least significant first.
pub open spec fn le_value(s: Seq<u8>) -> nat
    decreases s.len(),
{
    if s.len() == 0 {
        0
    } else {
        s[0] as nat + 256 * le_value(s.drop_first())
    }
}

/// The number stored in the `n` bytes at `at`.
pub open spec fn le_at(s: Seq<u8>, at: int, n: int) -> nat {
    le_value(s.subrange(at, at + n))
}

/// The `n` low bytes of a number, least significant first.
pub open spec fn le_bytes(v: nat, n: nat) -> Seq<u8>
    decreases n,
{
    if n == 0 {
        Seq::empty()
    } else {
        seq![(v % 256) as u8] + le_bytes(v / 256, (n - 1) as nat)
    }
}

pub proof fn lemma_le_bytes_len(v: nat, n: nat)
    ensures
        le_bytes(v, n).len() == n,
    decreases n,
{
    if n > 0 {
        lemma_le_bytes_len(v / 256, (n - 1) as nat);
    }
}

pub proof fn lemma_byte_range()
    ensures
        byte_range(0) == 1,
        byte_range(1) == 0x100,
        byte_range(2) == 0x1_0000,
        byte_range(3) == 0x100_0000,
        byte_range(4) == 0x1_0000_0000,
        byte_range(5) == 0x100_0000_0000,
        byte_range(8) == 0x1_0000_0000_0000_0000,
{
    reveal_with_fuel(byte_range, 9);
}

pub proof fn lemma_le_value_bound(s: Seq<u8>)
    ensures
        le_value(s) < byte_range(s.len()),
    decreases s.len(),
{
    if s.len() > 0 {
        lemma_le_value_bound(s.drop_first());
    }
}

/// Reading back `n` written bytes gives the number, as far as it fits.
pub proof fn lemma_le_roundtrip(v: nat, n: nat)
    ensures
        le_value(le_bytes(v, n)) == v % byte_range(n),
    decreases n,
{
    lemma_le_bytes_len(v, n);
    if n > 0 {
        let m = (n - 1) as nat;
        lemma_le_roundtrip(v / 256, m);
        lemma_byte_range_positive(m);
        assert(le_bytes(v, n).drop_first() =~= le_bytes(v / 256, m));
        assert(v % (256 * byte_range(m)) == v % 256 + 256 * ((v / 256) % byte_range(m))) by {
            vstd::arithmetic::div_mod::lemma_mod_breakdown(v as int, 256, byte_range(m) as int);
        }
    }
}

pub proof fn lemma_byte_range_positive(n: nat)
    ensures
        byte_range(n) > 0,
    decreases n,
{
    if n > 0 {
        lemma_byte_range_positive((n - 1) as nat);
    }
}

/// A number is read from its own bytes alone.
pub proof fn lemma_le_at_prefix(s: Seq<u8>, t: Seq<u8>, at: int, n: int)
    requires
        0 <= at,
        0 <= n,
        at + n <= s.len(),
    ensures
        le_at(s + t, at, n) == le_at(s, at, n),
{
    assert((s + t).subrange(at, at + n) =~= s.subrange(at, at + n));
}

/// Append the `n` low bytes of `v`.
pub fn push_le(buf: &mut Vec<u8>, v: u64, n: usize)
    ensures
        final(buf)@ == old(buf)@ + le_bytes(v as nat, n as nat),
        final(buf).len() == old(buf).len() + n,
        le_at(final(buf)@, old(buf).len() as int, n as int) == v as nat % byte_range(n as nat),
{
    let mut rest: u64 = v;
    let mut i: usize = 0;
    proof {
        lemma_le_bytes_len(v as nat, n as nat);
    }
    assert(old(buf)@ + le_bytes(v as nat, n as nat) =~= buf@ + le_bytes(rest as nat, n as nat));
    while i < n
        invariant
            i <= n,
            buf.len() == old(buf).len() + i,
            old(buf)@ + le_bytes(v as nat, n as nat) == buf@ + le_bytes(
                rest as nat,
                (n - i) as nat,
            ),
        decreases n - i,
    {
        let ghost before = buf@;
        buf.push((rest % 256) as u8);
        proof {
            let m = (n - i) as nat;
            assert(le_bytes(rest as nat, m) == seq![(rest % 256) as u8] + le_bytes(
                (rest / 256) as nat,
                (m - 1) as nat,
            ));
            assert(before + le_bytes(rest as nat, m) =~= buf@ + le_bytes(
                (rest / 256) as nat,
                (m - 1) as nat,
            ));
        }
        rest = rest / 256;
        i = i + 1;
    }
    proof {
        assert(buf@ =~= old(buf)@ + le_bytes(v as nat, n as nat));
        lemma_le_roundtrip(v as nat, n as nat);
        assert(buf@.subrange(old(buf).len() as int, old(buf).len() + n) =~= le_bytes(
            v as nat,
            n as nat,
        ));
    }
}

/// Read the number in the `n` bytes at `at`, for at most eight bytes.
pub fn read_le(buf: &[u8], at: usize, n: usize) -> (v: u64)
    requires
        n <= 8,
        at + n <= buf.len(),
    ensures
        v == le_at(buf@, at as int, n as int),
        v < byte_range(n as nat),
{
    let mut v: u64 = 0;
    let mut i: usize = n;
    let ghost s = buf@.subrange(at as int, at + n);
    proof {
        lemma_byte_range();
        assert(s.subrange(n as int, n as int) =~= Seq::<u8>::empty());
    }
    while i > 0
        invariant
            i <= n <= 8,
            at + n <= buf.len(),
            s == buf@.subrange(at as int, at + n),
            v == le_value(s.subrange(i as int, n as int)),
        decreases i,
    {
        i = i - 1;
        proof {
            let t = s.subrange(i as int, n as int);
            assert(t.drop_first() =~= s.subrange(i + 1, n as int));
            assert(t[0] == buf[at + i]);
            lemma_le_value_bound(t);
            lemma_byte_range_monotone(t.len(), 8);
            lemma_byte_range();
            assert(le_value(t) == t[0] + 256 * v);
        }
        v = buf[at + i] as u64 + 256 * v;
    }
    proof {
        assert(s.subrange(0, n as int) =~= s);
        lemma_le_value_bound(s);
    }
    v
}

proof fn lemma_byte_range_monotone(a: nat, b: nat)
    requires
        a <= b,
    ensures
        byte_range(a) <= byte_range(b),
    decreases b,
{
    if a < b {
        lemma_byte_range_monotone(a, (b - 1) as nat);
        lemma_byte_range_positive((b - 1) as nat);
    }
}

/// The four bytes at `at` as a number, the first byte counting least.
pub open spec fn word_at(b: Seq<u8>, at: int) -> int {
    b[at] + 0x100 * b[at + 1] + 0x1_0000 * b[at + 2] + 0x100_0000 * b[at + 3]
}

/// Numbers are little-endian: the first byte counts least, and every byte
/// counts 256 times the one before.
pub proof fn law_numbers_are_little_endian(b: Seq<u8>, at: int)
    requires
        0 <= at,
    ensures
        at + 2 <= b.len() ==> le_at(b, at, 2) == b[at] + 0x100 * b[at + 1],
        at + 3 <= b.len() ==> le_at(b, at, 3) == b[at] + 0x100 * b[at + 1] + 0x1_0000 * b[at + 2],
        at + 4 <= b.len() ==> le_at(b, at, 4) == word_at(b, at),
        at + 5 <= b.len() ==> le_at(b, at, 5) == word_at(b, at) + 0x1_0000_0000 * b[at + 4],
        at + 8 <= b.len() ==> le_at(b, at, 8) == word_at(b, at) + 0x1_0000_0000 * word_at(
            b,
            at + 4,
        ),
{
    if at + 2 <= b.len() {
        lemma_first_byte(b, at, 2);
        lemma_first_byte(b, at + 1, 1);
    }
    if at + 3 <= b.len() {
        lemma_first_byte(b, at, 3);
        lemma_first_byte(b, at + 1, 2);
        lemma_first_byte(b, at + 2, 1);
    }
    if at + 4 <= b.len() {
        lemma_first_byte(b, at, 4);
        lemma_first_byte(b, at + 1, 3);
        lemma_first_byte(b, at + 2, 2);
        lemma_first_byte(b, at + 3, 1);
    }
    if at + 5 <= b.len() {
        lemma_first_byte(b, at, 5);
        lemma_first_byte(b, at + 1, 4);
        lemma_first_byte(b, at + 2, 3);
        lemma_first_byte(b, at + 3, 2);
        lemma_first_byte(b, at + 4, 1);
    }
    if at + 8 <= b.len() {
        lemma_first_byte(b, at, 8);
        lemma_first_byte(b, at + 1, 7);
        lemma_first_byte(b, at + 2, 6);
        lemma_first_byte(b, at + 3, 5);
        lemma_first_byte(b, at + 4, 4);
        lemma_first_byte(b, at + 5, 3);
        lemma_first_byte(b, at + 6, 2);
        lemma_first_byte(b, at + 7, 1);
    }
}

proof fn lemma_first_byte(b: Seq<u8>, at: int, n: int)
    requires
        0 <= at,
        0 < n,
        at + n <= b.len(),
    ensures
        le_at(b, at, n) == b[at] + 256 * le_at(b, at + 1, n - 1),
        le_at(b, at + n, 0) == 0,
{
    assert(b.subrange(at, at + n).drop_first() =~= b.subrange(at + 1, at + n));
}

/// A number is written as its bytes, the lowest first: byte `i` is the number
/// divided by 256 so many times, reduced to a byte.
pub proof fn law_numbers_are_written_little_endian(v: nat, n: nat)
    ensures
        le_bytes(v, n).len() == n,
        n > 0 ==> le_bytes(v, n)[0] == v % 256,
        n > 0 ==> le_bytes(v, n).drop_first() == le_bytes(v / 256, (n - 1) as nat),
        byte_range(0) == 1,
        byte_range(n + 1) == 256 * byte_range(n),
{
    lemma_le_bytes_len(v, n);
    if n > 0 {
        assert(le_bytes(v, n).drop_first() =~= le_bytes(v / 256, (n - 1) as nat));
    }
}

} // verus!
