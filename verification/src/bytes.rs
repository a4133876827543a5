//! Byte sequences: big-endian integers, fixed-size arrays and comparison.

use vstd::prelude::*;

verus! {

/// `x` written as `width` bytes, most significant first.
pub open spec fn be(x: nat, width: nat) -> Seq<u8>
    decreases width,
{
    if width == 0 {
        Seq::empty()
    } else {
        be(x / 256, (width - 1) as nat).push((x % 256) as u8)
    }
}

/// The number that `s` spells, most significant byte first.
pub open spec fn be_value(s: Seq<u8>) -> nat
    decreases s.len(),
{
    if s.len() == 0 {
        0
    } else {
        be_value(s.drop_last()) * 256 + s.last() as nat
    }
}

/// How many values `width` bytes can spell.
pub open spec fn be_range(width: nat) -> nat
    decreases width,
{
    if width == 0 {
        1
    } else {
        be_range((width - 1) as nat) * 256
    }
}

/// The bytes of `s` from `from` to `to`, read as one number.
pub open spec fn be_at(s: Seq<u8>, from: int, to: int) -> nat {
    be_value(s.subrange(from, to))
}

pub proof fn lemma_be_len(x: nat, width: nat)
    ensures
        be(x, width).len() == width,
    decreases width,
{
    if width > 0 {
        lemma_be_len(x / 256, (width - 1) as nat);
    }
}

pub proof fn lemma_be_ranges()
    ensures
        be_range(1) == 0x100,
        be_range(2) == 0x1_0000,
        be_range(4) == 0x1_0000_0000,
        be_range(8) == 0x1_0000_0000_0000_0000,
{
    reveal_with_fuel(be_range, 9);
}

/// What `width` bytes spell is always within their range.
pub proof fn lemma_be_value_bound(s: Seq<u8>)
    ensures
        be_value(s) < be_range(s.len()),
    decreases s.len(),
{
    if s.len() > 0 {
        lemma_be_value_bound(s.drop_last());
    }
}

/// Reading back a number that was written gives the number.
pub proof fn lemma_be_round_trip(x: nat, width: nat)
    requires
        x < be_range(width),
    ensures
        be_value(be(x, width)) == x,
    decreases width,
{
    if width > 0 {
        lemma_be_round_trip(x / 256, (width - 1) as nat);
        assert(be(x, width).drop_last() =~= be(x / 256, (width - 1) as nat));
    }
}

/// Writing back a number that was read gives the bytes.
pub proof fn lemma_be_canonical(s: Seq<u8>)
    ensures
        be(be_value(s), s.len()) == s,
    decreases s.len(),
{
    if s.len() > 0 {
        lemma_be_canonical(s.drop_last());
        let v = be_value(s);
        assert(v / 256 == be_value(s.drop_last()));
        assert(v % 256 == s.last() as nat);
        assert(be(v, s.len()) =~= s.drop_last().push(s.last()));
        assert(s.drop_last().push(s.last()) =~= s);
    }
}

/// Two numbers in range that are written alike are equal.
pub proof fn lemma_be_injective(x: nat, y: nat, width: nat)
    requires
        x < be_range(width),
        y < be_range(width),
        be(x, width) == be(y, width),
    ensures
        x == y,
{
    lemma_be_round_trip(x, width);
    lemma_be_round_trip(y, width);
}

/// Appends `x` to `out` as `width` big-endian bytes.
pub fn push_be(out: &mut Vec<u8>, x: u64, width: usize)
    ensures
        final(out)@ == old(out)@ + be(x as nat, width as nat),
    decreases width,
{
    if width > 0 {
        push_be(out, x / 256, width - 1);
        out.push((x % 256) as u8);
    }
    assert(out@ =~= old(out)@ + be(x as nat, width as nat));
}

/// Reads the big-endian number in `s[from..to]`.
pub fn read_be(s: &[u8], from: usize, to: usize) -> (x: u64)
    requires
        from <= to <= s@.len(),
        to - from <= 8,
    ensures
        x == be_at(s@, from as int, to as int),
        x < be_range((to - from) as nat),
{
    let mut x: u64 = 0;
    let mut i: usize = from;
    proof {
        lemma_be_ranges();
        reveal_with_fuel(be_range, 9);
        assert(s@.subrange(from as int, from as int).len() == 0);
    }
    while i < to
        invariant
            from <= i <= to <= s@.len(),
            to - from <= 8,
            x == be_at(s@, from as int, i as int),
        decreases to - i,
    {
        proof {
            let before = s@.subrange(from as int, i as int);
            let after = s@.subrange(from as int, i + 1);
            assert(after.drop_last() =~= before);
            lemma_be_value_bound(before);
            lemma_be_value_bound(after);
            reveal_with_fuel(be_range, 9);
        }
        x = x * 256 + s[i] as u64;
        i = i + 1;
    }
    proof {
        lemma_be_value_bound(s@.subrange(from as int, to as int));
    }
    x
}

pub fn read_u16(s: &[u8], from: usize) -> (x: u16)
    requires
        from + 2 <= s@.len(),
    ensures
        x == be_at(s@, from as int, from + 2),
{
    proof {
        lemma_be_ranges();
        assert(s.len() == s@.len());
    }
    read_be(s, from, from + 2) as u16
}

pub fn read_u32(s: &[u8], from: usize) -> (x: u32)
    requires
        from + 4 <= s@.len(),
    ensures
        x == be_at(s@, from as int, from + 4),
{
    proof {
        lemma_be_ranges();
        assert(s.len() == s@.len());
    }
    read_be(s, from, from + 4) as u32
}

pub fn read_u64(s: &[u8], from: usize) -> (x: u64)
    requires
        from + 8 <= s@.len(),
    ensures
        x == be_at(s@, from as int, from + 8),
{
    assert(s.len() == s@.len());
    read_be(s, from, from + 8)
}

/// Whether two byte strings are equal.
pub fn same_bytes(a: &[u8], b: &[u8]) -> (r: bool)
    ensures
        r == (a@ == b@),
{
    if a.len() != b.len() {
        return false;
    }
    let mut i: usize = 0;
    while i < a.len()
        invariant
            i <= a@.len() == b@.len(),
            a@.subrange(0, i as int) == b@.subrange(0, i as int),
        decreases a.len() - i,
    {
        if a[i] != b[i] {
            return false;
        }
        assert(a@.subrange(0, i + 1) =~= a@.subrange(0, i as int).push(a@[i as int]));
        assert(b@.subrange(0, i + 1) =~= b@.subrange(0, i as int).push(b@[i as int]));
        i = i + 1;
    }
    assert(a@.subrange(0, i as int) =~= a@);
    assert(b@.subrange(0, i as int) =~= b@);
    true
}

/// Whether `s` begins with `prefix`.
pub fn begins_with(s: &[u8], prefix: &[u8]) -> (r: bool)
    ensures
        r == prefix@.is_prefix_of(s@),
{
    s.len() >= prefix.len() && same_bytes(&s[0..prefix.len()], prefix)
}

/// Appends all of `bytes` to `out`.
pub fn push_bytes(out: &mut Vec<u8>, bytes: &[u8])
    ensures
        final(out)@ == old(out)@ + bytes@,
{
    out.extend_from_slice(bytes);
    assert(out@ =~= old(out)@ + bytes@);
}

/// A fresh vector with the contents of `bytes`.
pub fn to_vec(bytes: &[u8]) -> (out: Vec<u8>)
    ensures
        out@ == bytes@,
{
    let mut out: Vec<u8> = Vec::new();
    push_bytes(&mut out, bytes);
    assert(out@ =~= bytes@);
    out
}

/// Overwrites the bytes of `output` from `at` on with `piece`.
pub fn write_at(output: &mut [u8], at: usize, piece: &[u8])
    requires
        at + piece@.len() <= old(output)@.len(),
    ensures
        final(output)@.len() == old(output)@.len(),
        forall|j: int|
            0 <= j < old(output)@.len() ==> #[trigger] final(output)@[j] == if at <= j < at
                + piece@.len() {
                piece@[j - at]
            } else {
                old(output)@[j]
            },
{
    assert(output.len() == output@.len());
    let mut i: usize = 0;
    while i < piece.len()
        invariant
            i <= piece@.len(),
            at + piece@.len() <= old(output)@.len(),
            output@.len() == old(output)@.len() <= usize::MAX,
            forall|j: int|
                0 <= j < old(output)@.len() ==> #[trigger] output@[j] == if at <= j < at + i {
                    piece@[j - at]
                } else {
                    old(output)@[j]
                },
        decreases piece@.len() - i,
    {
        output[at + i] = piece[i];
        i = i + 1;
    }
}

/// The array with the contents of `bytes`.
pub fn to_array<const N: usize>(bytes: &[u8]) -> (out: [u8; N])
    requires
        bytes@.len() == N,
    ensures
        out@ == bytes@,
{
    let mut out: [u8; N] = [0u8; N];
    let mut i: usize = 0;
    while i < N
        invariant
            i <= N == bytes@.len(),
            forall|j: int| 0 <= j < i ==> out@[j] == bytes@[j],
        decreases N - i,
    {
        out[i] = bytes[i];
        i = i + 1;
    }
    assert(out@ =~= bytes@);
    out
}

/// The array `[from..from + N]` of `bytes`.
pub fn array_at<const N: usize>(bytes: &[u8], from: usize) -> (out: [u8; N])
    requires
        from + N <= bytes@.len(),
    ensures
        out@ == bytes@.subrange(from as int, from + N),
{
    assert(bytes.len() == bytes@.len());
    to_array::<N>(&bytes[from..from + N])
}

/// Arrays with the same contents are the same array.
pub proof fn lemma_array_ext<const N: usize>(a: [u8; N], b: [u8; N])
    requires
        a@ == b@,
    ensures
        a == b,
{
    assert forall|i: int| 0 <= i < N implies a[i] == b[i] by {
        assert(a@[i] == b@[i]);
    }
    assert(a =~= b);
}

/// The first of several bytes counts the most: one more in it is worth one more than
/// all the bytes after it can spell.
pub proof fn law_first_byte_counts_most(first: u8, rest: Seq<u8>)
    ensures
        be_value(seq![first] + rest) == first * vstd::arithmetic::power::pow(256, rest.len())
            + be_value(rest),
        be_value(rest) < vstd::arithmetic::power::pow(256, rest.len()),
    decreases rest.len(),
{
    reveal(vstd::arithmetic::power::pow);
    let s = seq![first] + rest;
    if rest.len() == 0 {
        assert(s.drop_last() =~= Seq::<u8>::empty());
        assert(be_value(s.drop_last()) == 0);
        assert(vstd::arithmetic::power::pow(256, 0) == 1);
    } else {
        law_first_byte_counts_most(first, rest.drop_last());
        assert(s.drop_last() =~= seq![first] + rest.drop_last());
        let p = vstd::arithmetic::power::pow(256, (rest.len() - 1) as nat);
        assert(first * (256 * p) == 256 * (first * p)) by (nonlinear_arith);
    }
}

/// A number that fits is written so that it reads back.
pub proof fn law_numbers_read_back(x: nat, width: nat)
    requires
        x < vstd::arithmetic::power::pow(256, width),
    ensures
        be(x, width).len() == width,
        be_value(be(x, width)) == x,
    decreases width,
{
    reveal(vstd::arithmetic::power::pow);
    lemma_be_len(x, width);
    if width > 0 {
        law_numbers_read_back(x / 256, (width - 1) as nat);
        assert(be(x, width).drop_last() =~= be(x / 256, (width - 1) as nat));
    }
}

} // verus!
