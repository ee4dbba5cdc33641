//! Joining sequences of bytes: the few facts of it that the laws of the
//! grammars need, each proved apart from everything else.

use vstd::prelude::*;

verus! {

/// Joining is associative.
pub proof fn lemma_assoc(a: Seq<u8>, b: Seq<u8>, c: Seq<u8>)
    ensures
        a + (b + c) == a + b + c,
{
    assert(a + (b + c) =~= a + b + c);
}

/// Nothing, joined to the end, changes nothing.
pub proof fn lemma_nothing(a: Seq<u8>)
    ensures
        a + Seq::<u8>::empty() == a,
{
    assert(a + Seq::<u8>::empty() =~= a);
}

/// What begins with a piece that is not empty begins with the first byte of
/// that piece.
pub proof fn lemma_first(a: Seq<u8>, b: Seq<u8>)
    requires
        a.len() > 0,
    ensures
        (a + b).len() > 0,
        (a + b)[0] == a[0],
{
}

/// Nothing, joined to the front, changes nothing.
pub proof fn lemma_after_nothing(nothing: Seq<u8>, a: Seq<u8>)
    requires
        nothing.len() == 0,
    ensures
        nothing + a == a,
{
    assert(nothing + a =~= a);
}

/// A sequence is its first `k` bytes joined to the others.
pub proof fn lemma_split(s: Seq<u8>, k: int)
    requires
        0 <= k <= s.len(),
    ensures
        s.take(k) + s.skip(k) == s,
{
    assert(s.take(k) + s.skip(k) =~= s);
}

/// What a sequence begins with, joined to what follows it there, is the
/// sequence.
pub proof fn lemma_prefix_rest(p: Seq<u8>, s: Seq<u8>)
    requires
        p.is_prefix_of(s),
    ensures
        p + s.skip(p.len() as int) == s,
{
    assert(p + s.skip(p.len() as int) =~= s);
}

/// Two single bytes, joined, are the two bytes.
pub proof fn lemma_pair(a: u8, b: u8)
    ensures
        seq![a] + seq![b] == seq![a, b],
{
    assert(seq![a] + seq![b] =~= seq![a, b]);
}

/// Three pieces, joined, can be put after a fourth one by one.
pub proof fn lemma_after3(m: Seq<u8>, a: Seq<u8>, b: Seq<u8>, c: Seq<u8>)
    ensures
        m + (a + b + c) == m + a + b + c,
{
    lemma_assoc(m, a + b, c);
    lemma_assoc(m, a, b);
}

/// Four pieces, joined, can be put after a fifth one by one.
pub proof fn lemma_after4(m: Seq<u8>, a: Seq<u8>, b: Seq<u8>, c: Seq<u8>, d: Seq<u8>)
    ensures
        m + (a + b + c + d) == m + a + b + c + d,
{
    lemma_assoc(m, a + b + c, d);
    lemma_after3(m, a, b, c);
}

/// Five pieces, joined, can be put after a sixth one by one.
pub proof fn lemma_after5(
    m: Seq<u8>,
    a: Seq<u8>,
    b: Seq<u8>,
    c: Seq<u8>,
    d: Seq<u8>,
    e: Seq<u8>,
)
    ensures
        m + (a + b + c + d + e) == m + a + b + c + d + e,
{
    lemma_assoc(m, a + b + c + d, e);
    lemma_after4(m, a, b, c, d);
}

/// Seven pieces, joined, can be put after an eighth one by one.
pub proof fn lemma_after7(
    m: Seq<u8>,
    a: Seq<u8>,
    b: Seq<u8>,
    c: Seq<u8>,
    d: Seq<u8>,
    e: Seq<u8>,
    f: Seq<u8>,
    g: Seq<u8>,
)
    ensures
        m + (a + b + c + d + e + f + g) == m + a + b + c + d + e + f + g,
{
    lemma_assoc(m, a + b + c + d + e + f, g);
    lemma_assoc(m, a + b + c + d + e, f);
    lemma_after5(m, a, b, c, d, e);
}

/// What is joined to the end of a sequence is an end of the whole.
pub proof fn lemma_suffix(a: Seq<u8>, rest: Seq<u8>)
    ensures
        rest.is_suffix_of(a + rest),
{
    let s = a + rest;
    assert(rest =~= s.subrange(s.len() - rest.len(), s.len() as int));
}

/// The end of the end of a sequence is an end of that sequence.
pub proof fn lemma_suffix_of_suffix(a: Seq<u8>, b: Seq<u8>, c: Seq<u8>)
    requires
        a.is_suffix_of(b),
        b.is_suffix_of(c),
    ensures
        a.is_suffix_of(c),
{
    let k = c.len() - b.len();
    let j = b.len() - a.len();
    assert forall|i: int| 0 <= i < a.len() implies a[i] == c[k + j + i] by {
        assert(a[i] == b.subrange(j, b.len() as int)[i]);
        assert(b[j + i] == c.subrange(k, c.len() as int)[j + i]);
    }
    assert(a =~= c.subrange(k + j, c.len() as int));
}

} // verus!
