//! Raw-byte ordering of index keys.
//!
//! Every table of the store is an ordered byte-key namespace: scans yield keys
//! in ascending lexicographic byte order, and write batches are sorted in the
//! same order before commit.  This module gives that order a specification,
//! the executable comparison, and the facts about prefixes that the scan
//! filter relies on.

use vstd::prelude::*;

verus! {

/// `a` is at or before `b` in ascending raw-byte (lexicographic) order.
pub open spec fn lex_le(a: Seq<u8>, b: Seq<u8>) -> bool
    decreases a.len(),
{
    if a.len() == 0 {
        true
    } else if b.len() == 0 {
        false
    } else if a[0] < b[0] {
        true
    } else if a[0] > b[0] {
        false
    } else {
        lex_le(a.drop_first(), b.drop_first())
    }
}

/// Strict version of `lex_le`.
pub open spec fn lex_lt(a: Seq<u8>, b: Seq<u8>) -> bool {
    lex_le(a, b) && a != b
}

/// `s` begins with the bytes of `p`.
pub open spec fn starts_with(s: Seq<u8>, p: Seq<u8>) -> bool {
    p.len() <= s.len() && s.take(p.len() as int) == p
}

/// The order is total.
pub proof fn lemma_lex_total(a: Seq<u8>, b: Seq<u8>)
    ensures
        lex_le(a, b) || lex_le(b, a),
    decreases a.len(),
{
    if a.len() != 0 && b.len() != 0 && a[0] == b[0] {
        lemma_lex_total(a.drop_first(), b.drop_first());
    }
}

/// The order is antisymmetric: mutual `lex_le` means equality.
pub proof fn lemma_lex_antisymmetric(a: Seq<u8>, b: Seq<u8>)
    requires
        lex_le(a, b),
        lex_le(b, a),
    ensures
        a == b,
    decreases a.len(),
{
    if a.len() == 0 {
        assert(b.len() == 0);
        assert(a =~= b);
    } else {
        assert(b.len() != 0);
        assert(a[0] == b[0]);
        lemma_lex_antisymmetric(a.drop_first(), b.drop_first());
        assert(a =~= b) by {
            assert(a.len() == b.len());
            assert forall|i: int| 0 <= i < a.len() implies a[i] == b[i] by {
                if i > 0 {
                    assert(a[i] == a.drop_first()[i - 1]);
                    assert(b[i] == b.drop_first()[i - 1]);
                }
            }
        }
    }
}

/// The order is transitive.
pub proof fn lemma_lex_transitive(a: Seq<u8>, b: Seq<u8>, c: Seq<u8>)
    requires
        lex_le(a, b),
        lex_le(b, c),
    ensures
        lex_le(a, c),
    decreases a.len(),
{
    if a.len() != 0 {
        assert(b.len() != 0);
        assert(c.len() != 0);
        if a[0] == b[0] && b[0] == c[0] {
            lemma_lex_transitive(a.drop_first(), b.drop_first(), c.drop_first());
        }
    }
}

/// A key that begins with `p` is at or after `p` itself.
pub proof fn lemma_starts_with_ge(s: Seq<u8>, p: Seq<u8>)
    requires
        starts_with(s, p),
    ensures
        lex_le(p, s),
    decreases p.len(),
{
    if p.len() != 0 {
        assert(s.take(p.len() as int)[0] == p[0]);
        assert(s[0] == p[0]);
        assert(starts_with(s.drop_first(), p.drop_first())) by {
            assert(s.drop_first().take(p.len() - 1) =~= p.drop_first()) by {
                assert forall|i: int| 0 <= i < p.len() - 1 implies s.drop_first().take(
                    p.len() - 1,
                )[i] == p.drop_first()[i] by {
                    assert(s.take(p.len() as int)[i + 1] == p[i + 1]);
                }
            }
        }
        lemma_starts_with_ge(s.drop_first(), p.drop_first());
    }
}

/// The keys beginning with `p` form one contiguous run: any such key lies
/// strictly before every key that is at or after `p` yet does not begin with
/// `p`.  A scan in ascending order may therefore stop at the first mismatch.
pub proof fn lemma_prefix_run_ends(p: Seq<u8>, b: Seq<u8>, c: Seq<u8>)
    requires
        lex_le(p, b),
        !starts_with(b, p),
        starts_with(c, p),
    ensures
        lex_lt(c, b),
    decreases p.len(),
{
    if p.len() == 0 {
        assert(b.take(0) =~= p);
    }
    assert(p.len() != 0);
    assert(b.len() != 0);
    assert(c.len() >= p.len());
    assert(c.take(p.len() as int)[0] == p[0]);
    assert(c[0] == p[0]);
    if p[0] < b[0] {
        // b is already above every key beginning with p at the first byte
        assert(lex_lt(c, b));
    } else {
        assert(p[0] == b[0]);
        assert(lex_le(p.drop_first(), b.drop_first()));
        assert(starts_with(c.drop_first(), p.drop_first())) by {
            assert(c.drop_first().take(p.len() - 1) =~= p.drop_first()) by {
                assert forall|i: int| 0 <= i < p.len() - 1 implies c.drop_first().take(
                    p.len() - 1,
                )[i] == p.drop_first()[i] by {
                    assert(c.take(p.len() as int)[i + 1] == p[i + 1]);
                }
            }
        }
        assert(!starts_with(b.drop_first(), p.drop_first())) by {
            if starts_with(b.drop_first(), p.drop_first()) {
                assert(b.take(p.len() as int) =~= p) by {
                    assert forall|i: int| 0 <= i < p.len() implies b.take(p.len() as int)[i]
                        == p[i] by {
                        if i > 0 {
                            assert(b.drop_first().take(p.len() - 1)[i - 1] == p.drop_first()[i
                                - 1]);
                        }
                    }
                }
            }
        }
        lemma_prefix_run_ends(p.drop_first(), b.drop_first(), c.drop_first());
        assert(c.drop_first() != b.drop_first());
        assert(c != b) by {
            if c == b {
                assert(c.drop_first() =~= b.drop_first());
            }
        }
    }
}

/// Executable raw-byte comparison.
pub fn bytes_le(a: &Vec<u8>, b: &Vec<u8>) -> (r: bool)
    ensures
        r == lex_le(a@, b@),
{
    let mut i: usize = 0;
    proof {
        assert(a@.skip(0) =~= a@);
        assert(b@.skip(0) =~= b@);
    }
    loop
        invariant
            i <= a@.len(),
            i <= b@.len(),
            lex_le(a@, b@) == lex_le(a@.skip(i as int), b@.skip(i as int)),
        decreases a@.len() - i,
    {
        if i == a.len() {
            assert(a@.skip(i as int).len() == 0);
            return true;
        }
        if i == b.len() {
            assert(b@.skip(i as int).len() == 0);
            assert(a@.skip(i as int).len() != 0);
            return false;
        }
        let x = a[i];
        let y = b[i];
        assert(a@.skip(i as int)[0] == a@[i as int]);
        assert(b@.skip(i as int)[0] == b@[i as int]);
        if x < y {
            return true;
        }
        if x > y {
            return false;
        }
        proof {
            assert(a@.skip(i as int).drop_first() =~= a@.skip(i + 1));
            assert(b@.skip(i as int).drop_first() =~= b@.skip(i + 1));
        }
        i = i + 1;
    }
}

/// Executable prefix test.
pub fn has_prefix(s: &Vec<u8>, p: &Vec<u8>) -> (r: bool)
    ensures
        r == starts_with(s@, p@),
{
    if p.len() > s.len() {
        return false;
    }
    let mut i: usize = 0;
    while i < p.len()
        invariant
            i <= p@.len() <= s@.len(),
            forall|j: int| 0 <= j < i ==> s@[j] == p@[j],
        decreases p@.len() - i,
    {
        if s[i] != p[i] {
            proof {
                assert(s@.take(p@.len() as int)[i as int] == s@[i as int]);
                if s@.take(p@.len() as int) == p@ {
                    assert(s@.take(p@.len() as int)[i as int] == p@[i as int]);
                }
            }
            return false;
        }
        i = i + 1;
    }
    proof {
        assert(s@.take(p@.len() as int) =~= p@);
    }
    true
}

/// Executable byte-for-byte copy.
pub fn clone_bytes(v: &Vec<u8>) -> (r: Vec<u8>)
    ensures
        r@ == v@,
{
    let mut r: Vec<u8> = Vec::new();
    let mut i: usize = 0;
    while i < v.len()
        invariant
            i <= v@.len(),
            r@ =~= v@.take(i as int),
        decreases v@.len() - i,
    {
        r.push(v[i]);
        proof {
            assert(r@ =~= v@.take(i + 1));
        }
        i = i + 1;
    }
    proof {
        assert(r@ =~= v@);
    }
    r
}

} // verus!
