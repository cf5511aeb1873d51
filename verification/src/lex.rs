//! Lexicographic order on byte strings, as the ordered key-value store
//! compares its keys: bytes are compared left to right, and a proper
//! prefix comes before every extension of it.

use vstd::prelude::*;

verus! {

/// `a` comes strictly before `b` in byte-lexicographic order.
pub open spec fn lex_lt(a: Seq<u8>, b: Seq<u8>) -> bool
    decreases b.len(),
{
    if b.len() == 0 {
        false
    } else if a.len() == 0 {
        true
    } else if a[0] < b[0] {
        true
    } else if a[0] > b[0] {
        false
    } else {
        lex_lt(a.drop_first(), b.drop_first())
    }
}

/// `a` comes before `b`, or equals it.
pub open spec fn lex_le(a: Seq<u8>, b: Seq<u8>) -> bool {
    lex_lt(a, b) || a == b
}

/// Two byte strings with equal heads and equal tails are equal.
proof fn lemma_head_tail_eq(a: Seq<u8>, b: Seq<u8>)
    requires
        a.len() > 0,
        b.len() > 0,
        a[0] == b[0],
        a.drop_first() == b.drop_first(),
    ensures
        a == b,
{
    assert(a.drop_first().len() == a.len() - 1);
    assert(b.drop_first().len() == b.len() - 1);
    assert(a.len() == b.len());
    assert(a =~= b) by {
        assert forall|i: int| 0 <= i < a.len() implies a[i] == b[i] by {
            if i > 0 {
                assert(a.drop_first()[i - 1] == a[i]);
                assert(b.drop_first()[i - 1] == b[i]);
            }
        }
    }
}

/// The order is irreflexive.
pub proof fn lemma_lex_irrefl(a: Seq<u8>)
    ensures
        !lex_lt(a, a),
    decreases a.len(),
{
    if a.len() > 0 {
        lemma_lex_irrefl(a.drop_first());
    }
}

/// The order is transitive.
pub proof fn lemma_lex_trans(a: Seq<u8>, b: Seq<u8>, c: Seq<u8>)
    requires
        lex_lt(a, b),
        lex_lt(b, c),
    ensures
        lex_lt(a, c),
    decreases a.len(),
{
    if a.len() > 0 && b.len() > 0 && c.len() > 0 && a[0] == b[0] && b[0] == c[0] {
        lemma_lex_trans(a.drop_first(), b.drop_first(), c.drop_first());
    }
}

/// A shared prefix does not affect the relative order of two keys.
pub proof fn lemma_lex_concat(p: Seq<u8>, a: Seq<u8>, b: Seq<u8>)
    ensures
        lex_lt(p + a, p + b) <==> lex_lt(a, b),
    decreases p.len(),
{
    if p.len() == 0 {
        assert(p + a =~= a);
        assert(p + b =~= b);
    } else {
        assert((p + a).len() > 0 && (p + b).len() > 0);
        assert((p + a)[0] == p[0] && (p + b)[0] == p[0]);
        assert((p + a).drop_first() =~= p.drop_first() + a);
        assert((p + b).drop_first() =~= p.drop_first() + b);
        lemma_lex_concat(p.drop_first(), a, b);
    }
}

/// A shared prefix does not affect the relative order of two keys,
/// equality included.
pub proof fn lemma_lex_concat_le(p: Seq<u8>, a: Seq<u8>, b: Seq<u8>)
    ensures
        lex_le(p + a, p + b) <==> lex_le(a, b),
{
    lemma_lex_concat(p, a, b);
    if p + a == p + b {
        assert((p + a).skip(p.len() as int) =~= a);
        assert((p + b).skip(p.len() as int) =~= b);
    }
    if a == b {
        assert(p + a =~= p + b);
    }
}

/// A proper prefix comes strictly before every extension of it.
pub proof fn lemma_lex_prefix_lt(a: Seq<u8>, s: Seq<u8>)
    requires
        s.len() > 0,
    ensures
        lex_lt(a, a + s),
    decreases a.len(),
{
    if a.len() == 0 {
        assert(a + s =~= s);
    } else {
        assert((a + s)[0] == a[0]);
        assert((a + s).drop_first() =~= a.drop_first() + s);
        lemma_lex_prefix_lt(a.drop_first(), s);
    }
}

/// Every key at or after `a` with one sentinel byte appended lies
/// strictly after `a` itself.
pub proof fn lemma_sentinel_after(a: Seq<u8>, x: Seq<u8>)
    requires
        lex_le(a.push(1u8), x),
    ensures
        lex_lt(a, x),
{
    assert(a.push(1u8) =~= a + seq![1u8]);
    lemma_lex_prefix_lt(a, seq![1u8]);
    if lex_lt(a.push(1u8), x) {
        lemma_lex_trans(a, a.push(1u8), x);
    }
}

/// Among keys of one fixed length, appending a sentinel byte to `a`
/// yields the immediate successor: every same-length key strictly after
/// `a` is at or after `a` with the sentinel appended.
pub proof fn lemma_sentinel_successor(a: Seq<u8>, x: Seq<u8>)
    requires
        a.len() == x.len(),
        lex_lt(a, x),
    ensures
        lex_le(a.push(1u8), x),
    decreases a.len(),
{
    if a.len() > 0 {
        if a[0] == x[0] {
            lemma_sentinel_successor(a.drop_first(), x.drop_first());
            assert(a.push(1u8).drop_first() =~= a.drop_first().push(1u8));
            if a.drop_first().push(1u8) == x.drop_first() {
                lemma_head_tail_eq(a.push(1u8), x);
            } else {
                assert(a.push(1u8)[0] == x[0]);
            }
        } else {
            assert(a[0] < x[0]);
            assert(a.push(1u8)[0] == a[0]);
        }
    }
}

/// A key bounded below by `p` extended with anything, and strictly
/// below `p` with its last byte incremented, carries `p` as a prefix.
pub proof fn lemma_between_has_prefix(p: Seq<u8>, q: Seq<u8>, k: Seq<u8>)
    requires
        p.len() >= 1,
        p[p.len() - 1] < 255,
        q == p.update(p.len() - 1, (p[p.len() - 1] + 1) as u8),
        lex_le(p, k),
        lex_lt(k, q),
    ensures
        k.len() >= p.len(),
        k.subrange(0, p.len() as int) == p,
    decreases p.len(),
{
    if k == p {
        assert(k.subrange(0, p.len() as int) =~= p);
    } else if p.len() == 1 {
        assert(lex_lt(p, k));
        assert(k.len() > 0);
        assert(q.len() == 1 && q[0] == p[0] + 1);
        if k[0] > p[0] {
            if k[0] == q[0] {
                assert(q.drop_first().len() == 0);
                assert(!lex_lt(k.drop_first(), q.drop_first()));
            }
            assert(!lex_lt(k, q));
        }
        assert(k[0] <= p[0]);
        if k[0] == p[0] {
            assert(lex_lt(p.drop_first(), k.drop_first()));
            assert(k.drop_first().len() > 0);
        }
        assert(k[0] == p[0] && k.len() > 1);
        assert(k.subrange(0, 1) =~= p);
    } else {
        assert(lex_lt(p, k));
        assert(q[0] == p[0]);
        assert(k.len() > 0);
        if k[0] > p[0] {
            assert(!lex_lt(k, q));
        }
        if k[0] < p[0] {
            assert(!lex_lt(p, k));
        }
        assert(k[0] == p[0]);
        let p1 = p.drop_first();
        let q1 = q.drop_first();
        let k1 = k.drop_first();
        assert(q1 =~= p1.update(p1.len() - 1, (p1[p1.len() - 1] + 1) as u8));
        if p1 == k1 {
            lemma_head_tail_eq(p, k);
        }
        assert(lex_lt(p1, k1) || p1 == k1);
        assert(lex_lt(k1, q1));
        lemma_between_has_prefix(p1, q1, k1);
        assert(k.subrange(0, p.len() as int) =~= p) by {
            assert forall|i: int| 0 <= i < p.len() implies k.subrange(0, p.len() as int)[i]
                == p[i] by {
                if i > 0 {
                    assert(k1[i - 1] == k[i]);
                    assert(p1[i - 1] == p[i]);
                    assert(k1.subrange(0, p1.len() as int)[i - 1] == k1[i - 1]);
                }
            }
        }
    }
}

/// Every key that carries `p` as a prefix lies strictly before `p` with
/// its last byte incremented.
pub proof fn lemma_prefixed_below_succ(p: Seq<u8>, x: Seq<u8>, q: Seq<u8>)
    requires
        p.len() >= 1,
        p[p.len() - 1] < 255,
        q == p.update(p.len() - 1, (p[p.len() - 1] + 1) as u8),
    ensures
        lex_lt(p + x, q),
    decreases p.len(),
{
    if p.len() == 1 {
        assert((p + x)[0] == p[0]);
        assert(q[0] == p[0] + 1);
    } else {
        assert((p + x)[0] == p[0] && q[0] == p[0]);
        let p1 = p.drop_first();
        assert(q.drop_first() =~= p1.update(p1.len() - 1, (p1[p1.len() - 1] + 1) as u8));
        assert((p + x).drop_first() =~= p1 + x);
        lemma_prefixed_below_succ(p1, x, q.drop_first());
    }
}

} // verus!
