//! Lexicographic and shortlex ("length first") orders over sequences,
//! generic in the element order, with proofs that they are total orders
//! whenever the element order is one.

use vstd::prelude::*;
use vstd::relations::total_ordering;

verus! {

/// Lexicographic "less than or equal" over sequences, given an element
/// order `le`: the shorter of two equal-prefixed sequences comes first.
pub open spec fn lex_le<A>(a: Seq<A>, b: Seq<A>, le: spec_fn(A, A) -> bool) -> bool
    decreases a.len(),
{
    if a.len() == 0 {
        true
    } else if b.len() == 0 {
        false
    } else if a[0] == b[0] {
        lex_le(a.drop_first(), b.drop_first(), le)
    } else {
        le(a[0], b[0])
    }
}

/// Shortlex "less than or equal": by length first, lexicographically among
/// sequences of one length.
pub open spec fn shortlex_le<A>(a: Seq<A>, b: Seq<A>, le: spec_fn(A, A) -> bool) -> bool {
    a.len() < b.len() || (a.len() == b.len() && lex_le(a, b, le))
}

/// The lexicographic order relates every two sequences.
pub proof fn lemma_lex_le_total<A>(a: Seq<A>, b: Seq<A>, le: spec_fn(A, A) -> bool)
    requires
        total_ordering(le),
    ensures
        lex_le(a, b, le) || lex_le(b, a, le),
    decreases a.len(),
{
    if a.len() == 0 || b.len() == 0 {
    } else if a[0] == b[0] {
        lemma_lex_le_total(a.drop_first(), b.drop_first(), le);
    }
}

/// Two sequences lexicographically at or below each other are equal.
pub proof fn lemma_lex_le_antisymmetric<A>(a: Seq<A>, b: Seq<A>, le: spec_fn(A, A) -> bool)
    requires
        total_ordering(le),
        lex_le(a, b, le),
        lex_le(b, a, le),
    ensures
        a == b,
    decreases a.len(),
{
    if a.len() == 0 {
        assert(b.len() == 0);
        assert(a =~= b);
    } else {
        assert(b.len() > 0);
        assert(a[0] == b[0]);
        lemma_lex_le_antisymmetric(a.drop_first(), b.drop_first(), le);
        assert(a =~= b) by {
            assert(forall|i: int|
                1 <= i < a.len() ==> a[i] == a.drop_first()[i - 1] && b[i] == b.drop_first()[i
                    - 1]);
        }
    }
}

/// The lexicographic order is transitive.
pub proof fn lemma_lex_le_transitive<A>(
    a: Seq<A>,
    b: Seq<A>,
    c: Seq<A>,
    le: spec_fn(A, A) -> bool,
)
    requires
        total_ordering(le),
        lex_le(a, b, le),
        lex_le(b, c, le),
    ensures
        lex_le(a, c, le),
    decreases a.len(),
{
    if a.len() == 0 || b.len() == 0 || c.len() == 0 {
    } else if a[0] == b[0] && b[0] == c[0] {
        lemma_lex_le_transitive(a.drop_first(), b.drop_first(), c.drop_first(), le);
    } else if a[0] == c[0] {
        if a[0] == b[0] {
        } else {
            assert(le(a[0], b[0]) && le(b[0], c[0]));
            assert(le(c[0], b[0]));
            assert(b[0] == c[0]);
        }
    }
}

/// Equal prefixes do not decide the lexicographic order: it is decided by
/// what follows them.
pub proof fn lemma_lex_le_skip<A>(a: Seq<A>, b: Seq<A>, le: spec_fn(A, A) -> bool, n: int)
    requires
        0 <= n <= a.len(),
        n <= b.len(),
        forall|i: int| 0 <= i < n ==> a[i] == b[i],
    ensures
        lex_le(a, b, le) == lex_le(a.skip(n), b.skip(n), le),
    decreases n,
{
    if n == 0 {
        assert(a.skip(0) =~= a);
        assert(b.skip(0) =~= b);
    } else {
        assert(a.len() > 0 && b.len() > 0 && a[0] == b[0]);
        assert(a.drop_first().skip(n - 1) =~= a.skip(n));
        assert(b.drop_first().skip(n - 1) =~= b.skip(n));
        lemma_lex_le_skip(a.drop_first(), b.drop_first(), le, n - 1);
    }
}

/// A sequence that runs out first is lexicographically at or below one
/// that continues with the same elements.
pub proof fn lemma_lex_le_prefix<A>(a: Seq<A>, b: Seq<A>, le: spec_fn(A, A) -> bool, n: int)
    requires
        0 <= n <= a.len(),
        n <= b.len(),
        forall|i: int| 0 <= i < n ==> a[i] == b[i],
        n == a.len() || n == b.len(),
    ensures
        lex_le(a, b, le) == (a.len() <= b.len()),
{
    lemma_lex_le_skip(a, b, le, n);
    if a.len() <= b.len() {
        assert(a.skip(n).len() == a.len() - n == 0);
    } else {
        assert(b.skip(n).len() == 0 && a.skip(n).len() > 0);
    }
}

/// The shortlex order relates every two sequences.
pub proof fn lemma_shortlex_le_total<A>(a: Seq<A>, b: Seq<A>, le: spec_fn(A, A) -> bool)
    requires
        total_ordering(le),
    ensures
        shortlex_le(a, b, le) || shortlex_le(b, a, le),
{
    if a.len() == b.len() {
        lemma_lex_le_total(a, b, le);
    }
}

/// Two sequences shortlex at or below each other are equal.
pub proof fn lemma_shortlex_le_antisymmetric<A>(a: Seq<A>, b: Seq<A>, le: spec_fn(A, A) -> bool)
    requires
        total_ordering(le),
        shortlex_le(a, b, le),
        shortlex_le(b, a, le),
    ensures
        a == b,
{
    lemma_lex_le_antisymmetric(a, b, le);
}

/// The shortlex order is transitive.
pub proof fn lemma_shortlex_le_transitive<A>(
    a: Seq<A>,
    b: Seq<A>,
    c: Seq<A>,
    le: spec_fn(A, A) -> bool,
)
    requires
        total_ordering(le),
        shortlex_le(a, b, le),
        shortlex_le(b, c, le),
    ensures
        shortlex_le(a, c, le),
{
    if a.len() == b.len() && b.len() == c.len() {
        lemma_lex_le_transitive(a, b, c, le);
    }
}

/// The standard order on bytes.
pub open spec fn u8_le_at(x: u8, y: u8) -> bool {
    x <= y
}

/// The standard order on bytes, as an element order for sequences.
pub open spec fn u8_le() -> spec_fn(u8, u8) -> bool {
    |x: u8, y: u8| u8_le_at(x, y)
}

/// The standard order on characters, by Unicode scalar value.
pub open spec fn char_le_at(x: char, y: char) -> bool {
    (x as int) <= (y as int)
}

/// The standard order on characters, as an element order for sequences.
pub open spec fn char_le() -> spec_fn(char, char) -> bool {
    |x: char, y: char| char_le_at(x, y)
}

/// The byte order is a total order.
pub proof fn lemma_u8_le_total_ordering()
    ensures
        total_ordering(u8_le()),
{
}

/// The character order is a total order.
pub proof fn lemma_char_le_total_ordering()
    ensures
        total_ordering(char_le()),
{
    assert forall|x: char, y: char| #[trigger] (char_le())(x, y) implies (!(char_le())(y, x) || x
        == y) by {
        assert((char_le())(x, y) == char_le_at(x, y));
        assert((char_le())(y, x) == char_le_at(y, x));
        if (char_le())(y, x) {
            assert((x as int) == (y as int));
        }
    }
    assert(vstd::relations::reflexive(char_le())) by {
        assert(forall|x: char| #[trigger] (char_le())(x, x));
    }
    assert(vstd::relations::transitive(char_le())) by {
        assert(forall|x: char, y: char, z: char|
            (char_le())(x, y) && (char_le())(y, z) ==> #[trigger] (char_le())(x, z)
                || !(#[trigger] (char_le())(x, y)));
    }
    assert(vstd::relations::strongly_connected(char_le())) by {
        assert(forall|x: char, y: char| #[trigger] (char_le())(x, y) || (char_le())(y, x));
    }
    assert(vstd::relations::antisymmetric(char_le()));
}

} // verus!
