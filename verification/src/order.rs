//! The order of byte strings: the order in which the ordered byte map keeps
//! its keys, and the facts about it that the composite keys rest on.

use vstd::prelude::*;

verus! {

/// `a` comes strictly before `b`: at the first position where they differ the
/// byte of `a` is the smaller one, or `a` ends there and `b` goes on.
pub open spec fn lex_lt(a: Seq<u8>, b: Seq<u8>) -> bool
    decreases a.len(),
{
    if b.len() == 0 {
        false
    } else if a.len() == 0 {
        true
    } else if a[0] != b[0] {
        a[0] < b[0]
    } else {
        lex_lt(a.drop_first(), b.drop_first())
    }
}

/// `a` comes before `b` or is `b`.
pub open spec fn lex_le(a: Seq<u8>, b: Seq<u8>) -> bool {
    !lex_lt(b, a)
}

/// `p` is the beginning of `s`.
pub open spec fn starts_with(s: Seq<u8>, p: Seq<u8>) -> bool {
    p.len() <= s.len() && s.subrange(0, p.len() as int) == p
}

/// `n` bytes, each of them `0xFF`.
pub open spec fn all_ones(n: nat) -> Seq<u8> {
    Seq::new(n, |i: int| 0xFFu8)
}

/// No byte string comes before itself.
pub proof fn lemma_lex_lt_irreflexive(a: Seq<u8>)
    ensures
        !lex_lt(a, a),
    decreases a.len(),
{
    if a.len() > 0 {
        lemma_lex_lt_irreflexive(a.drop_first());
    }
}

/// Of two different byte strings one comes before the other, and never both.
pub proof fn order_is_total(a: Seq<u8>, b: Seq<u8>)
    ensures
        lex_lt(a, b) || lex_lt(b, a) || a == b,
        !(lex_lt(a, b) && lex_lt(b, a)),
        a == b ==> !lex_lt(a, b),
    decreases a.len(),
{
    lemma_lex_lt_irreflexive(a);
    if a.len() == 0 || b.len() == 0 {
        if a.len() == 0 && b.len() == 0 {
            assert(a =~= b);
        }
    } else if a[0] == b[0] {
        order_is_total(a.drop_first(), b.drop_first());
        if a.drop_first() == b.drop_first() {
            assert(a =~= seq![a[0]] + a.drop_first());
            assert(b =~= seq![b[0]] + b.drop_first());
        }
    }
}

/// The order is transitive.
pub proof fn order_is_transitive(a: Seq<u8>, b: Seq<u8>, c: Seq<u8>)
    requires
        lex_lt(a, b),
        lex_lt(b, c),
    ensures
        lex_lt(a, c),
    decreases a.len(),
{
    if a.len() > 0 && a[0] == b[0] && b[0] == c[0] {
        order_is_transitive(a.drop_first(), b.drop_first(), c.drop_first());
    }
}

/// A common beginning decides nothing: the rests are ordered as the wholes.
pub proof fn lemma_lex_lt_common_prefix(p: Seq<u8>, x: Seq<u8>, y: Seq<u8>)
    ensures
        lex_lt(p + x, p + y) == lex_lt(x, y),
    decreases p.len(),
{
    if p.len() == 0 {
        assert(p + x =~= x);
        assert(p + y =~= y);
    } else {
        let q = p.drop_first();
        assert((p + x).drop_first() =~= q + x);
        assert((p + y).drop_first() =~= q + y);
        lemma_lex_lt_common_prefix(q, x, y);
    }
}

/// Two different beginnings of one length decide the order, whatever
/// follows them.
pub proof fn lemma_lex_lt_decided_early(a: Seq<u8>, b: Seq<u8>, x: Seq<u8>, y: Seq<u8>)
    requires
        a.len() == b.len(),
        a != b,
    ensures
        lex_lt(a + x, b + y) == lex_lt(a, b),
    decreases a.len(),
{
    if a.len() == 0 {
        assert(a =~= b);
    } else if a[0] == b[0] {
        let p = a.drop_first();
        let q = b.drop_first();
        assert((a + x).drop_first() =~= p + x);
        assert((b + y).drop_first() =~= q + y);
        if p == q {
            assert(a =~= seq![a[0]] + p);
            assert(b =~= seq![b[0]] + q);
        }
        lemma_lex_lt_decided_early(p, q, x, y);
    }
}

/// Nothing of at most `n` bytes comes after `n` bytes of `0xFF`.
pub proof fn lemma_lex_le_all_ones(c: Seq<u8>, n: nat)
    requires
        c.len() <= n,
    ensures
        lex_le(c, all_ones(n)),
    decreases n,
{
    if c.len() > 0 {
        let rest = all_ones(n).drop_first();
        assert(rest =~= all_ones((n - 1) as nat));
        lemma_lex_le_all_ones(c.drop_first(), (n - 1) as nat);
    }
}

/// Whatever lies between `p` and `p` followed by anything begins with `p`.
pub proof fn lemma_between_starts_with(k: Seq<u8>, p: Seq<u8>, t: Seq<u8>)
    requires
        lex_le(p, k),
        lex_le(k, p + t),
    ensures
        starts_with(k, p),
    decreases p.len(),
{
    if p.len() == 0 {
        assert(k.subrange(0, 0) =~= p);
    } else {
        let q = p.drop_first();
        assert((p + t).drop_first() =~= q + t);
        assert((p + t)[0] == p[0]);
        lemma_between_starts_with(k.drop_first(), q, t);
        assert(k.subrange(0, p.len() as int) =~= p) by {
            assert(k.drop_first().subrange(0, q.len() as int) == q);
            assert forall|i: int| 0 <= i < p.len() implies k[i] == p[i] by {
                if i > 0 {
                    assert(k.drop_first().subrange(0, q.len() as int)[i - 1] == q[i - 1]);
                }
            }
        }
    }
}

/// What begins with `p` and is at most `p.len() + n` bytes long lies between
/// `p` and `p` followed by `n` bytes of `0xFF`.
pub proof fn lemma_starts_with_between(k: Seq<u8>, p: Seq<u8>, n: nat)
    requires
        starts_with(k, p),
        k.len() <= p.len() + n,
    ensures
        lex_le(p, k),
        lex_le(k, p + all_ones(n)),
{
    let tail = k.subrange(p.len() as int, k.len() as int);
    assert(k =~= p + tail);
    assert(p =~= p + Seq::<u8>::empty());
    lemma_lex_lt_common_prefix(p, tail, Seq::<u8>::empty());
    lemma_lex_le_all_ones(tail, n);
    lemma_lex_lt_common_prefix(p, all_ones(n), tail);
}

/// Whether `a` and `b` hold the same bytes.
pub fn bytes_equal(a: &[u8], b: &[u8]) -> (same: bool)
    ensures
        same == (a@ == b@),
{
    if a.len() != b.len() {
        return false;
    }
    let mut i: usize = 0;
    while i < a.len()
        invariant
            i <= a@.len(),
            a@.len() == b@.len(),
            forall|j: int| 0 <= j < i ==> a@[j] == b@[j],
        decreases a@.len() - i,
    {
        if a[i] != b[i] {
            return false;
        }
        i = i + 1;
    }
    assert(a@ =~= b@);
    true
}

/// Whether `a` comes before `b`.
pub fn bytes_precede(a: &[u8], b: &[u8]) -> (before: bool)
    ensures
        before == lex_lt(a@, b@),
{
    let mut i: usize = 0;
    assert(a@.skip(0) =~= a@ && b@.skip(0) =~= b@);
    while i < a.len() && i < b.len()
        invariant
            i <= a@.len(),
            i <= b@.len(),
            lex_lt(a@, b@) == lex_lt(a@.skip(i as int), b@.skip(i as int)),
        decreases a@.len() - i,
    {
        if a[i] != b[i] {
            return a[i] < b[i];
        }
        proof {
            assert(a@.skip(i as int).drop_first() =~= a@.skip(i + 1));
            assert(b@.skip(i as int).drop_first() =~= b@.skip(i + 1));
        }
        i = i + 1;
    }
    i < b.len()
}

} // verus!
