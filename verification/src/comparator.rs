//! Pluggable key-ordering strategies, resolved by name per column family.
//!
//! The default order is lexicographic over the raw key bytes; a reversed
//! order is available as a named alternative. The comparator is injected
//! into every ordered structure rather than hard-coded. A deliberate
//! restriction: orders are named strategies drawn from this fixed set — an
//! arbitrary caller-supplied comparison function with opaque context could
//! not carry the total-order laws the proofs rest on, so each admissible
//! order is a specified strategy here.

use vstd::prelude::*;

verus! {

/// A key-ordering strategy.
#[derive(Debug, Clone, Copy, PartialEq, Eq, Structural)]
pub enum Comparator {
    /// Byte-wise lexicographic order; the engine's default.
    Lexicographic,
    /// Byte-wise lexicographic order reversed.
    ReverseLexicographic,
}

/// Three-way lexicographic comparison of byte strings: negative when `a`
/// sorts first, zero exactly on equality, positive when `b` sorts first.
pub open spec fn lex_cmp(a: Seq<u8>, b: Seq<u8>) -> int
    decreases a.len(),
{
    if a.len() == 0 && b.len() == 0 {
        0
    } else if a.len() == 0 {
        -1
    } else if b.len() == 0 {
        1
    } else if a[0] < b[0] {
        -1
    } else if a[0] > b[0] {
        1
    } else {
        lex_cmp(a.drop_first(), b.drop_first())
    }
}

/// Zero means equal byte strings.
pub proof fn lemma_lex_cmp_eq(a: Seq<u8>, b: Seq<u8>)
    ensures
        lex_cmp(a, b) == 0 <==> a == b,
    decreases a.len(),
{
    if a.len() > 0 && b.len() > 0 && a[0] == b[0] {
        lemma_lex_cmp_eq(a.drop_first(), b.drop_first());
        if a.drop_first() == b.drop_first() && a[0] == b[0] {
            assert(a =~= b) by {
                assert(forall|i: int|
                    1 <= i < a.len() ==> a[i] == a.drop_first()[i - 1] && b[i] == b.drop_first()[i
                        - 1]);
            }
        }
        if a == b {
            assert(a.drop_first() =~= b.drop_first());
        }
    } else {
        if a.len() == 0 && b.len() == 0 {
            assert(a =~= b);
        }
        if a == b {
            assert(a.len() == b.len());
        }
    }
}

/// Lexicographic comparison flips with its arguments.
pub proof fn lemma_lex_cmp_antisym(a: Seq<u8>, b: Seq<u8>)
    ensures
        lex_cmp(b, a) == -lex_cmp(a, b),
    decreases a.len(),
{
    if a.len() > 0 && b.len() > 0 && a[0] == b[0] {
        lemma_lex_cmp_antisym(a.drop_first(), b.drop_first());
    }
}

/// Lexicographic comparison is transitive, strictly so as soon as one step
/// is strict.
pub proof fn lemma_lex_cmp_trans(a: Seq<u8>, b: Seq<u8>, c: Seq<u8>)
    requires
        lex_cmp(a, b) <= 0,
        lex_cmp(b, c) <= 0,
    ensures
        lex_cmp(a, c) <= 0,
        lex_cmp(a, b) < 0 || lex_cmp(b, c) < 0 ==> lex_cmp(a, c) < 0,
    decreases a.len(),
{
    lemma_lex_cmp_eq(a, b);
    lemma_lex_cmp_eq(b, c);
    lemma_lex_cmp_eq(a, c);
    if a == b || b == c {
        // a tie is equality, and the other step carries over unchanged
    } else if a.len() == 0 {
        // the empty key sorts first
        assert(c.len() > 0);
    } else {
        // both steps are strict on non-empty keys
        assert(b.len() > 0);
        assert(c.len() > 0);
        if a[0] < b[0] {
            if b[0] <= c[0] {
                assert(a[0] < c[0]);
            } else {
                assert(lex_cmp(b, c) == 1);
            }
        } else if a[0] > b[0] {
            assert(lex_cmp(a, b) == 1);
        } else {
            if b[0] < c[0] {
                assert(a[0] < c[0]);
            } else if b[0] > c[0] {
                assert(lex_cmp(b, c) == 1);
            } else {
                lemma_lex_cmp_trans(a.drop_first(), b.drop_first(), c.drop_first());
            }
        }
    }
}

impl Comparator {
    /// The order this comparator assigns to two keys, as a three-way result.
    pub open spec fn spec_compare(self, a: Seq<u8>, b: Seq<u8>) -> int {
        match self {
            Comparator::Lexicographic => lex_cmp(a, b),
            Comparator::ReverseLexicographic => lex_cmp(b, a),
        }
    }

    /// Zero means equal keys, under either order.
    pub proof fn lemma_compare_eq(self, a: Seq<u8>, b: Seq<u8>)
        ensures
            self.spec_compare(a, b) == 0 <==> a == b,
    {
        lemma_lex_cmp_eq(a, b);
        lemma_lex_cmp_eq(b, a);
    }

    /// Either order flips with its arguments.
    pub proof fn lemma_compare_antisym(self, a: Seq<u8>, b: Seq<u8>)
        ensures
            self.spec_compare(b, a) == -self.spec_compare(a, b),
    {
        lemma_lex_cmp_antisym(a, b);
    }

    /// Either order is transitive, strictly so as soon as one step is
    /// strict: the comparator is a total order on keys.
    pub proof fn lemma_compare_trans(self, a: Seq<u8>, b: Seq<u8>, c: Seq<u8>)
        requires
            self.spec_compare(a, b) <= 0,
            self.spec_compare(b, c) <= 0,
        ensures
            self.spec_compare(a, c) <= 0,
            self.spec_compare(a, b) < 0 || self.spec_compare(b, c) < 0 ==> self.spec_compare(
                a,
                c,
            ) < 0,
    {
        match self {
            Comparator::Lexicographic => {
                lemma_lex_cmp_trans(a, b, c);
            },
            Comparator::ReverseLexicographic => {
                lemma_lex_cmp_trans(c, b, a);
            },
        }
    }

    /// Compares two keys; returns -1, 0 or 1.
    pub fn compare(&self, a: &[u8], b: &[u8]) -> (r: i32)
        ensures
            r == self.spec_compare(a@, b@),
            r == -1 || r == 0 || r == 1,
    {
        match self {
            Comparator::Lexicographic => lex_compare(a, b),
            Comparator::ReverseLexicographic => lex_compare(b, a),
        }
    }
}

/// Byte-wise lexicographic comparison.
fn lex_compare(a: &[u8], b: &[u8]) -> (r: i32)
    ensures
        r == lex_cmp(a@, b@),
        r == -1 || r == 0 || r == 1,
{
    let a_len = a.len();
    let b_len = b.len();
    let mut i: usize = 0;
    proof {
        assert(a@.skip(0) =~= a@);
        assert(b@.skip(0) =~= b@);
    }
    loop
        invariant
            0 <= i <= a@.len(),
            i <= b@.len(),
            a_len == a@.len(),
            b_len == b@.len(),
            lex_cmp(a@, b@) == lex_cmp(a@.skip(i as int), b@.skip(i as int)),
        decreases a@.len() - i,
    {
        if i == a_len && i == b_len {
            proof {
                assert(a@.skip(i as int).len() == 0 && b@.skip(i as int).len() == 0);
            }
            return 0;
        }
        if i == a_len {
            proof {
                assert(a@.skip(i as int).len() == 0 && b@.skip(i as int).len() > 0);
            }
            return -1;
        }
        if i == b_len {
            proof {
                assert(b@.skip(i as int).len() == 0 && a@.skip(i as int).len() > 0);
            }
            return 1;
        }
        let x = a[i];
        let y = b[i];
        proof {
            assert(a@.skip(i as int)[0] == a@[i as int]);
            assert(b@.skip(i as int)[0] == b@[i as int]);
        }
        if x < y {
            return -1;
        }
        if x > y {
            return 1;
        }
        proof {
            assert(a@.skip(i as int).drop_first() =~= a@.skip(i + 1));
            assert(b@.skip(i as int).drop_first() =~= b@.skip(i + 1));
        }
        i += 1;
    }
}

} // verus!
