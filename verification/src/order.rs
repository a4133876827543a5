//! Lexicographic order on sequences of numbers.

use vstd::prelude::*;

verus! {

/// Whether `a` comes before `b`: at the first place where they differ, or where
/// `a` ends first.
pub open spec fn before(a: Seq<int>, b: Seq<int>) -> bool
    decreases a.len(),
{
    if a.len() == 0 {
        b.len() > 0
    } else if b.len() == 0 {
        false
    } else if a[0] != b[0] {
        a[0] < b[0]
    } else {
        before(a.drop_first(), b.drop_first())
    }
}

pub open spec fn byte_key(bytes: Seq<u8>) -> Seq<int> {
    bytes.map_values(|b: u8| b as int)
}

pub open spec fn word_key(words: Seq<u64>) -> Seq<int> {
    words.map_values(|w: u64| w as int)
}

pub proof fn lemma_irreflexive(a: Seq<int>)
    ensures
        !before(a, a),
    decreases a.len(),
{
    if a.len() > 0 {
        lemma_irreflexive(a.drop_first());
    }
}

pub proof fn lemma_transitive(a: Seq<int>, b: Seq<int>, c: Seq<int>)
    requires
        before(a, b),
        before(b, c),
    ensures
        before(a, c),
    decreases a.len(),
{
    if a.len() > 0 && a[0] == b[0] && b[0] == c[0] {
        lemma_transitive(a.drop_first(), b.drop_first(), c.drop_first());
    }
}

pub proof fn lemma_total(a: Seq<int>, b: Seq<int>)
    ensures
        a == b || before(a, b) || before(b, a),
    decreases a.len(),
{
    if a.len() == 0 || b.len() == 0 {
        if a.len() == b.len() {
            assert(a =~= b);
        }
    } else if a[0] == b[0] {
        lemma_total(a.drop_first(), b.drop_first());
        if a.drop_first() == b.drop_first() {
            assert(a =~= seq![a[0]] + a.drop_first());
            assert(b =~= seq![b[0]] + b.drop_first());
        }
    }
}

pub proof fn lemma_asymmetric(a: Seq<int>, b: Seq<int>)
    requires
        before(a, b),
    ensures
        !before(b, a),
        a != b,
{
    lemma_irreflexive(a);
    if before(b, a) {
        lemma_transitive(a, b, a);
    }
}

/// A common beginning does not matter.
pub proof fn lemma_common_prefix(prefix: Seq<int>, a: Seq<int>, b: Seq<int>)
    ensures
        before(prefix + a, prefix + b) == before(a, b),
    decreases prefix.len(),
{
    if prefix.len() == 0 {
        assert(prefix + a =~= a);
        assert(prefix + b =~= b);
    } else {
        lemma_common_prefix(prefix.drop_first(), a, b);
        assert((prefix + a).drop_first() =~= prefix.drop_first() + a);
        assert((prefix + b).drop_first() =~= prefix.drop_first() + b);
    }
}

/// Beginnings of the same length that differ decide the order.
pub proof fn lemma_different_prefix(p: Seq<int>, q: Seq<int>, a: Seq<int>, b: Seq<int>)
    requires
        p.len() == q.len(),
        p != q,
    ensures
        before(p + a, q + b) == before(p, q),
    decreases p.len(),
{
    if p.len() == 0 {
        assert(p =~= q);
    } else if p[0] == q[0] {
        if p.drop_first() == q.drop_first() {
            assert(p =~= seq![p[0]] + p.drop_first());
            assert(q =~= seq![q[0]] + q.drop_first());
        }
        lemma_different_prefix(p.drop_first(), q.drop_first(), a, b);
        assert((p + a).drop_first() =~= p.drop_first() + a);
        assert((q + b).drop_first() =~= q.drop_first() + b);
    }
}

/// Two sequences that agree up to `i` are ordered as what follows.
proof fn lemma_agree_up_to(a: Seq<int>, b: Seq<int>, i: int)
    requires
        0 <= i <= a.len(),
        i <= b.len(),
        a.subrange(0, i) == b.subrange(0, i),
    ensures
        before(a, b) == before(
            a.subrange(i, a.len() as int),
            b.subrange(i, b.len() as int),
        ),
{
    let prefix = a.subrange(0, i);
    lemma_common_prefix(prefix, a.subrange(i, a.len() as int), b.subrange(i, b.len() as int));
    assert(a =~= prefix + a.subrange(i, a.len() as int));
    assert(b =~= prefix + b.subrange(i, b.len() as int));
}

/// Compares byte strings of the same length.
pub fn bytes_before(a: &[u8], b: &[u8]) -> (r: bool)
    requires
        a@.len() == b@.len(),
    ensures
        r == before(byte_key(a@), byte_key(b@)),
{
    let mut i: usize = 0;
    while i < a.len()
        invariant
            i <= a@.len() == b@.len(),
            byte_key(a@).subrange(0, i as int) == byte_key(b@).subrange(0, i as int),
        decreases a@.len() - i,
    {
        if a[i] != b[i] {
            proof {
                lemma_agree_up_to(byte_key(a@), byte_key(b@), i as int);
            }
            return a[i] < b[i];
        }
        proof {
            let (s, t) = (byte_key(a@), byte_key(b@));
            assert(s.subrange(0, i + 1) =~= s.subrange(0, i as int).push(s[i as int]));
            assert(t.subrange(0, i + 1) =~= t.subrange(0, i as int).push(t[i as int]));
        }
        i = i + 1;
    }
    proof {
        let (s, t) = (byte_key(a@), byte_key(b@));
        assert(s.subrange(0, i as int) =~= s);
        assert(t.subrange(0, i as int) =~= t);
        lemma_irreflexive(s);
    }
    false
}

/// Compares sequences of numbers of the same length.
pub fn words_before(a: &[u64], b: &[u64]) -> (r: bool)
    requires
        a@.len() == b@.len(),
    ensures
        r == before(word_key(a@), word_key(b@)),
{
    let mut i: usize = 0;
    while i < a.len()
        invariant
            i <= a@.len() == b@.len(),
            word_key(a@).subrange(0, i as int) == word_key(b@).subrange(0, i as int),
        decreases a@.len() - i,
    {
        if a[i] != b[i] {
            proof {
                lemma_agree_up_to(word_key(a@), word_key(b@), i as int);
            }
            return a[i] < b[i];
        }
        proof {
            let (s, t) = (word_key(a@), word_key(b@));
            assert(s.subrange(0, i + 1) =~= s.subrange(0, i as int).push(s[i as int]));
            assert(t.subrange(0, i + 1) =~= t.subrange(0, i as int).push(t[i as int]));
        }
        i = i + 1;
    }
    proof {
        let (s, t) = (word_key(a@), word_key(b@));
        assert(s.subrange(0, i as int) =~= s);
        assert(t.subrange(0, i as int) =~= t);
        lemma_irreflexive(s);
    }
    false
}

/// Different byte strings have different keys.
pub proof fn lemma_byte_key_injective(a: Seq<u8>, b: Seq<u8>)
    requires
        byte_key(a) == byte_key(b),
    ensures
        a == b,
{
    assert(a.len() == byte_key(a).len());
    assert(b.len() == byte_key(b).len());
    assert forall|i: int| 0 <= i < a.len() implies a[i] == b[i] by {
        assert(byte_key(a)[i] == a[i] as int);
        assert(byte_key(b)[i] == b[i] as int);
    }
    assert(a =~= b);
}

/// Sequences of one length are ordered by the first place where they differ.
pub proof fn law_the_first_difference_decides(a: Seq<int>, b: Seq<int>, at: int)
    requires
        a.len() == b.len(),
        0 <= at < a.len(),
        forall|i: int| 0 <= i < at ==> a[i] == b[i],
        a[at] != b[at],
    ensures
        before(a, b) <==> a[at] < b[at],
    decreases a.len(),
{
    if at > 0 {
        law_the_first_difference_decides(a.drop_first(), b.drop_first(), at - 1);
    }
}

} // verus!
