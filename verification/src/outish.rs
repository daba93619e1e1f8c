//! The capabilities that make one benchmark body reusable across item
//! shapes and storage strategies: the item-order capability [`Out`], the
//! alternative-order capability [`AltOrd`] with its wrapper
//! [`AltOrderItem`], the output-representation capability [`OutFrom`], and
//! the collection-backend capability [`OutCollection`] with its three
//! backends.
//!
//! All contracts speak about item views (`@`): an item made of owned
//! storage, such as a byte buffer, is identified with its abstract content,
//! never with one particular allocation of it.

use crate::lex::{
    char_le, char_le_at, lemma_char_le_total_ordering, lemma_lex_le_antisymmetric,
    lemma_lex_le_prefix, lemma_lex_le_skip, lemma_lex_le_total, lemma_lex_le_transitive,
    lemma_shortlex_le_antisymmetric, lemma_shortlex_le_total, lemma_shortlex_le_transitive,
    lemma_u8_le_total_ordering, lex_le, shortlex_le, u8_le, u8_le_at,
};
use vstd::multiset::Multiset;
use vstd::prelude::*;
use vstd::string::StrSliceExecFns;

verus! {

broadcast use vstd::seq_lib::group_to_multiset_ensures;

/// Signalled when an operation a backend does not support is invoked
/// (for example an unstable sort on the unique-ordered-set backend).
/// The fix is to not register such a case, not to handle this at run time.
#[derive(Clone, Copy, PartialEq, Eq, Structural, Debug)]
pub struct UsageError;

/// The capability every benchmarked item must have: it can be cloned,
/// compared for equality, and totally ordered under the baseline order.
/// The order and the equality are those of the item's view.
pub trait Out: Sized + View {
    /// The baseline total order ("less than or equal") on item views.
    spec fn le_view(a: Self::V, b: Self::V) -> bool;

    /// The baseline order relates every two views.
    proof fn lemma_le_total(a: Self::V, b: Self::V)
        ensures
            Self::le_view(a, b) || Self::le_view(b, a),
    ;

    /// Two views below or equal to each other are equal.
    proof fn lemma_le_antisymmetric(a: Self::V, b: Self::V)
        requires
            Self::le_view(a, b),
            Self::le_view(b, a),
        ensures
            a == b,
    ;

    /// The baseline order is transitive.
    proof fn lemma_le_transitive(a: Self::V, b: Self::V, c: Self::V)
        requires
            Self::le_view(a, b),
            Self::le_view(b, c),
        ensures
            Self::le_view(a, c),
    ;

    /// Decides the baseline order.
    fn le(&self, other: &Self) -> (r: bool)
        ensures
            r == Self::le_view(self@, other@),
    ;

    /// Decides equality of items (of their views).
    fn eq_item(&self, other: &Self) -> (r: bool)
        ensures
            r == (self@ == other@),
    ;

    /// Clones an item; the clone has the same view.
    fn clone_item(&self) -> (r: Self)
        ensures
            r@ == self@,
    ;
}

/// The views of a sequence of items, element-wise.
pub open spec fn seq_views<T: View>(s: Seq<T>) -> Seq<T::V> {
    s.map_values(|t: T| t@)
}

/// A sequence of views is ascending under the baseline order: every
/// earlier element is below or equal to every later one.
pub open spec fn sorted_le<T: Out>(s: Seq<T::V>) -> bool {
    forall|i: int, j: int| 0 <= i < j < s.len() ==> #[trigger] T::le_view(s[i], s[j])
}

/// A sequence of views is ascending and holds no two equal elements.
pub open spec fn sorted_unique<T: Out>(s: Seq<T::V>) -> bool {
    sorted_le::<T>(s) && (forall|i: int, j: int| #![trigger s[i], s[j]]
        0 <= i < j < s.len() ==> s[i] != s[j])
}

impl Out for u8 {
    open spec fn le_view(a: u8, b: u8) -> bool {
        a <= b
    }

    proof fn lemma_le_total(a: u8, b: u8) {
    }

    proof fn lemma_le_antisymmetric(a: u8, b: u8) {
    }

    proof fn lemma_le_transitive(a: u8, b: u8, c: u8) {
    }

    fn le(&self, other: &Self) -> (r: bool) {
        *self <= *other
    }

    fn eq_item(&self, other: &Self) -> (r: bool) {
        *self == *other
    }

    fn clone_item(&self) -> (r: Self) {
        *self
    }
}

/// Clones a byte buffer; the clone has the same content.
fn clone_bytes(a: &Vec<u8>) -> (r: Vec<u8>)
    ensures
        r@ == a@,
{
    let mut r: Vec<u8> = Vec::with_capacity(a.len());
    let mut i: usize = 0;
    while i < a.len()
        invariant
            i <= a@.len(),
            r@ == a@.subrange(0, i as int),
        decreases a@.len() - i,
    {
        r.push(a[i]);
        proof {
            assert(r@ =~= a@.subrange(0, i as int + 1));
        }
        i = i + 1;
    }
    proof {
        assert(a@.subrange(0, a@.len() as int) == a@);
    }
    r
}

/// Compares two byte buffers for content equality.
fn bytes_eq(a: &Vec<u8>, b: &Vec<u8>) -> (r: bool)
    ensures
        r == (a@ == b@),
{
    if a.len() != b.len() {
        return false;
    }
    let mut i: usize = 0;
    while i < a.len()
        invariant
            a@.len() == b@.len(),
            i <= a@.len(),
            forall|k: int| 0 <= k < i ==> a@[k] == b@[k],
        decreases a@.len() - i,
    {
        if a[i] != b[i] {
            return false;
        }
        i = i + 1;
    }
    proof {
        assert(a@ =~= b@);
    }
    true
}

/// Decides the lexicographic byte order on byte buffers.
fn bytes_le(a: &Vec<u8>, b: &Vec<u8>) -> (r: bool)
    ensures
        r == lex_le(a@, b@, u8_le()),
{
    let n = if a.len() <= b.len() {
        a.len()
    } else {
        b.len()
    };
    let mut i: usize = 0;
    while i < n
        invariant
            i <= n,
            n <= a@.len(),
            n <= b@.len(),
            n == a@.len() || n == b@.len(),
            forall|k: int| 0 <= k < i ==> a@[k] == b@[k],
        decreases n - i,
    {
        if a[i] != b[i] {
            proof {
                lemma_lex_le_skip(a@, b@, u8_le(), i as int);
                let sa = a@.skip(i as int);
                let sb = b@.skip(i as int);
                assert(sa[0] == a@[i as int] && sb[0] == b@[i as int]);
                assert(sa.len() > 0 && sb.len() > 0);
                assert(lex_le(sa, sb, u8_le()) == (u8_le())(sa[0], sb[0]));
                assert((u8_le())(sa[0], sb[0]) == u8_le_at(a@[i as int], b@[i as int]));
            }
            return a[i] <= b[i];
        }
        i = i + 1;
    }
    proof {
        lemma_lex_le_prefix(a@, b@, u8_le(), n as int);
    }
    a.len() <= b.len()
}

impl Out for Vec<u8> {
    open spec fn le_view(a: Seq<u8>, b: Seq<u8>) -> bool {
        lex_le(a, b, u8_le())
    }

    proof fn lemma_le_total(a: Seq<u8>, b: Seq<u8>) {
        lemma_u8_le_total_ordering();
        lemma_lex_le_total(a, b, u8_le());
    }

    proof fn lemma_le_antisymmetric(a: Seq<u8>, b: Seq<u8>) {
        lemma_u8_le_total_ordering();
        lemma_lex_le_antisymmetric(a, b, u8_le());
    }

    proof fn lemma_le_transitive(a: Seq<u8>, b: Seq<u8>, c: Seq<u8>) {
        lemma_u8_le_total_ordering();
        lemma_lex_le_transitive(a, b, c, u8_le());
    }

    fn le(&self, other: &Self) -> (r: bool) {
        bytes_le(self, other)
    }

    fn eq_item(&self, other: &Self) -> (r: bool) {
        bytes_eq(self, other)
    }

    fn clone_item(&self) -> (r: Self) {
        clone_bytes(self)
    }
}

/// Decides the lexicographic character order on text buffers.
fn string_le(a: &String, b: &String) -> (r: bool)
    ensures
        r == lex_le(a@, b@, char_le()),
{
    let alen = a.as_str().unicode_len();
    let blen = b.as_str().unicode_len();
    let n = if alen <= blen {
        alen
    } else {
        blen
    };
    let mut i: usize = 0;
    while i < n
        invariant
            i <= n,
            n <= a@.len(),
            n <= b@.len(),
            n == a@.len() || n == b@.len(),
            forall|k: int| 0 <= k < i ==> a@[k] == b@[k],
        decreases n - i,
    {
        let ca = a.as_str().get_char(i);
        let cb = b.as_str().get_char(i);
        if ca != cb {
            proof {
                lemma_lex_le_skip(a@, b@, char_le(), i as int);
                let sa = a@.skip(i as int);
                let sb = b@.skip(i as int);
                assert(sa[0] == a@[i as int] && sb[0] == b@[i as int]);
                assert(sa.len() > 0 && sb.len() > 0);
                assert(lex_le(sa, sb, char_le()) == (char_le())(sa[0], sb[0]));
                assert((char_le())(sa[0], sb[0]) == char_le_at(ca, cb));
                assert(((ca as u32) as int) == (ca as int));
                assert(((cb as u32) as int) == (cb as int));
            }
            return (ca as u32) <= (cb as u32);
        }
        i = i + 1;
    }
    proof {
        lemma_lex_le_prefix(a@, b@, char_le(), n as int);
    }
    alen <= blen
}

impl Out for String {
    open spec fn le_view(a: Seq<char>, b: Seq<char>) -> bool {
        lex_le(a, b, char_le())
    }

    proof fn lemma_le_total(a: Seq<char>, b: Seq<char>) {
        lemma_char_le_total_ordering();
        lemma_lex_le_total(a, b, char_le());
    }

    proof fn lemma_le_antisymmetric(a: Seq<char>, b: Seq<char>) {
        lemma_char_le_total_ordering();
        lemma_lex_le_antisymmetric(a, b, char_le());
    }

    proof fn lemma_le_transitive(a: Seq<char>, b: Seq<char>, c: Seq<char>) {
        lemma_char_le_total_ordering();
        lemma_lex_le_transitive(a, b, c, char_le());
    }

    fn le(&self, other: &Self) -> (r: bool) {
        string_le(self, other)
    }

    fn eq_item(&self, other: &Self) -> (r: bool) {
        self.eq(other)
    }

    fn clone_item(&self) -> (r: Self) {
        self.clone()
    }
}

/// The alternative-order capability: the same items under the externally
/// supplied alternative total order (the alt-order adapter seam). The
/// adapter's only obligations are the ones stated here: a total order on
/// item views, consistent with their equality, plus a way to decide it.
///
/// The implementations below stand in for the external adapter with a
/// representative alternative order: shortlex ("cheap comparison first":
/// by length, then by content) for buffer items, and the baseline order for
/// scalar items, which have no cheaper comparison to cascade from.
pub trait AltOrd: Out {
    /// The alternative total order on item views.
    spec fn alt_le_view(a: Self::V, b: Self::V) -> bool;

    /// The alternative order relates every two views.
    proof fn lemma_alt_le_total(a: Self::V, b: Self::V)
        ensures
            Self::alt_le_view(a, b) || Self::alt_le_view(b, a),
    ;

    /// Two views below or equal to each other under the alternative order
    /// are equal.
    proof fn lemma_alt_le_antisymmetric(a: Self::V, b: Self::V)
        requires
            Self::alt_le_view(a, b),
            Self::alt_le_view(b, a),
        ensures
            a == b,
    ;

    /// The alternative order is transitive.
    proof fn lemma_alt_le_transitive(a: Self::V, b: Self::V, c: Self::V)
        requires
            Self::alt_le_view(a, b),
            Self::alt_le_view(b, c),
        ensures
            Self::alt_le_view(a, c),
    ;

    /// Decides the alternative order.
    fn alt_le(&self, other: &Self) -> (r: bool)
        ensures
            r == Self::alt_le_view(self@, other@),
    ;
}

impl AltOrd for u8 {
    open spec fn alt_le_view(a: u8, b: u8) -> bool {
        a <= b
    }

    proof fn lemma_alt_le_total(a: u8, b: u8) {
    }

    proof fn lemma_alt_le_antisymmetric(a: u8, b: u8) {
    }

    proof fn lemma_alt_le_transitive(a: u8, b: u8, c: u8) {
    }

    fn alt_le(&self, other: &Self) -> (r: bool) {
        *self <= *other
    }
}

impl AltOrd for Vec<u8> {
    open spec fn alt_le_view(a: Seq<u8>, b: Seq<u8>) -> bool {
        shortlex_le(a, b, u8_le())
    }

    proof fn lemma_alt_le_total(a: Seq<u8>, b: Seq<u8>) {
        lemma_u8_le_total_ordering();
        lemma_shortlex_le_total(a, b, u8_le());
    }

    proof fn lemma_alt_le_antisymmetric(a: Seq<u8>, b: Seq<u8>) {
        lemma_u8_le_total_ordering();
        lemma_shortlex_le_antisymmetric(a, b, u8_le());
    }

    proof fn lemma_alt_le_transitive(a: Seq<u8>, b: Seq<u8>, c: Seq<u8>) {
        lemma_u8_le_total_ordering();
        lemma_shortlex_le_transitive(a, b, c, u8_le());
    }

    fn alt_le(&self, other: &Self) -> (r: bool) {
        if self.len() != other.len() {
            self.len() < other.len()
        } else {
            bytes_le(self, other)
        }
    }
}

impl AltOrd for String {
    open spec fn alt_le_view(a: Seq<char>, b: Seq<char>) -> bool {
        shortlex_le(a, b, char_le())
    }

    proof fn lemma_alt_le_total(a: Seq<char>, b: Seq<char>) {
        lemma_char_le_total_ordering();
        lemma_shortlex_le_total(a, b, char_le());
    }

    proof fn lemma_alt_le_antisymmetric(a: Seq<char>, b: Seq<char>) {
        lemma_char_le_total_ordering();
        lemma_shortlex_le_antisymmetric(a, b, char_le());
    }

    proof fn lemma_alt_le_transitive(a: Seq<char>, b: Seq<char>, c: Seq<char>) {
        lemma_char_le_total_ordering();
        lemma_shortlex_le_transitive(a, b, c, char_le());
    }

    fn alt_le(&self, other: &Self) -> (r: bool) {
        let alen = self.as_str().unicode_len();
        let blen = other.as_str().unicode_len();
        if alen != blen {
            alen < blen
        } else {
            string_le(self, other)
        }
    }
}

/// An opaque wrapper around an output item, ordered by the alternative
/// total order instead of the baseline one. Constructed on demand, per
/// benchmark iteration, from a clone of an output item.
pub struct AltOrderItem<T: AltOrd>(pub T);

impl<T: AltOrd> View for AltOrderItem<T> {
    type V = T::V;

    open spec fn view(&self) -> T::V {
        self.0@
    }
}

impl<T: AltOrd> AltOrderItem<T> {
    /// Wraps an output item for comparison under the alternative order.
    pub fn new(item: T) -> (r: Self)
        ensures
            r@ == item@,
    {
        AltOrderItem(item)
    }
}

impl<T: AltOrd> Out for AltOrderItem<T> {
    open spec fn le_view(a: T::V, b: T::V) -> bool {
        T::alt_le_view(a, b)
    }

    proof fn lemma_le_total(a: T::V, b: T::V) {
        T::lemma_alt_le_total(a, b);
    }

    proof fn lemma_le_antisymmetric(a: T::V, b: T::V) {
        T::lemma_alt_le_antisymmetric(a, b);
    }

    proof fn lemma_le_transitive(a: T::V, b: T::V, c: T::V) {
        T::lemma_alt_le_transitive(a, b, c);
    }

    fn le(&self, other: &Self) -> (r: bool) {
        self.0.alt_le(&other.0)
    }

    fn eq_item(&self, other: &Self) -> (r: bool) {
        self.0.eq_item(&other.0)
    }

    fn clone_item(&self) -> (r: Self) {
        AltOrderItem(self.0.clone_item())
    }
}

/// The output-representation capability: how an owned item is turned into
/// the value actually fed into comparisons and collections. Selected at
/// benchmark-setup time by the choice of types; a wrong pairing does not
/// build.
///
/// Borrowed views are modeled by content: the derived item's view equals
/// what the view of the borrowing representation would be, so a
/// whole-buffer slice view or text view is the buffer's own content.
pub trait OutFrom<Own: View>: Out {
    /// The view of the derived output item, from the owned item's view.
    spec fn of_own_view(o: Own::V) -> Self::V;

    /// Derives the output item for one owned item.
    fn of_own(own: &Own) -> (r: Self)
        ensures
            r@ == Self::of_own_view(own@),
    ;
}

/// The direct representation: the output item is the owned scalar itself.
impl OutFrom<u8> for u8 {
    open spec fn of_own_view(o: u8) -> u8 {
        o
    }

    fn of_own(own: &u8) -> (r: Self) {
        *own
    }
}

/// The slice-view representation over an owned byte buffer, by content.
impl OutFrom<Vec<u8>> for Vec<u8> {
    open spec fn of_own_view(o: Seq<u8>) -> Seq<u8> {
        o
    }

    fn of_own(own: &Vec<u8>) -> (r: Self) {
        clone_bytes(own)
    }
}

/// The string-view representation over an owned text buffer, by content.
/// Distinguished from the slice case by its element type: text views
/// respect character boundaries, so the content is a character sequence.
impl OutFrom<String> for String {
    open spec fn of_own_view(o: Seq<char>) -> Seq<char> {
        o
    }

    fn of_own(own: &String) -> (r: Self) {
        own.clone()
    }
}

/// Returns the position of a least element of a non-empty vector under the
/// baseline order.
fn min_position<T: Out>(v: &Vec<T>) -> (m: usize)
    requires
        v@.len() > 0,
    ensures
        m < v@.len(),
        forall|i: int| 0 <= i < v@.len() ==> T::le_view(v@[m as int]@, #[trigger] (v@[i]@)),
{
    let mut m: usize = 0;
    let mut k: usize = 1;
    proof {
        T::lemma_le_total(v@[0]@, v@[0]@);
    }
    while k < v.len()
        invariant
            m < k <= v@.len(),
            forall|i: int| 0 <= i < k ==> T::le_view(v@[m as int]@, #[trigger] (v@[i]@)),
        decreases v@.len() - k,
    {
        if v[k].le(&v[m]) {
            proof {
                assert forall|i: int| 0 <= i < k implies T::le_view(
                    v@[k as int]@,
                    #[trigger] (v@[i]@),
                ) by {
                    T::lemma_le_transitive(v@[k as int]@, v@[m as int]@, v@[i]@);
                }
                T::lemma_le_total(v@[k as int]@, v@[k as int]@);
            }
            m = k;
        } else {
            proof {
                T::lemma_le_total(v@[m as int]@, v@[k as int]@);
            }
        }
        k = k + 1;
    }
    m
}

/// Sorts a vector ascending under the baseline order, in place.
/// The result holds exactly the elements of the input, with multiplicity.
pub fn sort_vec<T: Out>(v: &mut Vec<T>)
    ensures
        sorted_le::<T>(seq_views(final(v)@)),
        seq_views(final(v)@).to_multiset() == seq_views(old(v)@).to_multiset(),
{
    let ghost full: Seq<T::V> = seq_views(v@);
    let mut out: Vec<T> = Vec::new();
    proof {
        assert(seq_views(out@).to_multiset().add(seq_views(v@).to_multiset())
            =~= full.to_multiset());
    }
    while v.len() > 0
        invariant
            sorted_le::<T>(seq_views(out@)),
            seq_views(out@).to_multiset().add(seq_views(v@).to_multiset()) == full.to_multiset(),
            forall|i: int, j: int|
                0 <= i < out@.len() && 0 <= j < v@.len() ==> #[trigger] T::le_view(
                    out@[i]@,
                    v@[j]@,
                ),
        decreases v@.len(),
    {
        let m = min_position(v);
        let ghost pre: Seq<T::V> = seq_views(v@);
        let ghost outpre: Seq<T::V> = seq_views(out@);
        let x = v.remove(m);
        out.push(x);
        proof {
            assert(seq_views(v@) =~= pre.remove(m as int)) by {
                pre.remove_ensures(m as int);
            }
            assert(seq_views(out@) =~= outpre.push(x@));
            pre.remove_ensures(m as int);
            assert(seq_views(v@).to_multiset() == pre.to_multiset().remove(pre[m as int]));
            assert(pre.contains(x@)) by {
                assert(pre[m as int] == x@);
            }
            assert(pre.to_multiset().count(x@) > 0);
            assert(seq_views(out@).to_multiset() == outpre.to_multiset().insert(x@));
            assert(seq_views(out@).to_multiset().add(seq_views(v@).to_multiset())
                =~= outpre.to_multiset().add(pre.to_multiset()));
            assert forall|i: int, j: int|
                0 <= i < j < seq_views(out@).len() implies #[trigger] T::le_view(
                seq_views(out@)[i],
                seq_views(out@)[j],
            ) by {
                if j == seq_views(out@).len() - 1 {
                    assert(seq_views(out@)[j] == pre[m as int]);
                    assert(seq_views(out@)[i] == outpre[i]);
                    assert(T::le_view(outpre[i], pre[m as int]));
                } else {
                    assert(seq_views(out@)[i] == outpre[i] && seq_views(out@)[j] == outpre[j]);
                }
            }
            assert forall|i: int, j: int|
                0 <= i < out@.len() && 0 <= j < v@.len() implies #[trigger] T::le_view(
                out@[i]@,
                v@[j]@,
            ) by {
                let p: int = if j < m { j } else { j + 1 };
                assert(v@[j]@ == pre[p]);
                if i < outpre.len() {
                    assert(T::le_view(outpre[i], pre[p]));
                } else {
                    assert(out@[i]@ == pre[m as int]);
                    assert(T::le_view(pre[m as int], pre[p]));
                }
            }
        }
    }
    proof {
        assert(seq_views(v@).to_multiset() =~= Multiset::<T::V>::empty());
        assert(seq_views(out@).to_multiset().add(Multiset::<T::V>::empty()) =~= seq_views(
            out@,
        ).to_multiset());
    }
    *v = out;
}

/// Binary search under the baseline order: returns whether an element whose
/// view equals `x`'s is present in the ascending vector.
pub fn binary_search_vec<T: Out>(v: &Vec<T>, x: &T) -> (r: bool)
    requires
        sorted_le::<T>(seq_views(v@)),
    ensures
        r == seq_views(v@).contains(x@),
{
    let ghost vs: Seq<T::V> = seq_views(v@);
    let mut lo: usize = 0;
    let mut hi: usize = v.len();
    while lo < hi
        invariant
            lo <= hi <= v@.len(),
            vs == seq_views(v@),
            sorted_le::<T>(vs),
            forall|i: int| 0 <= i < lo ==> vs[i] != x@,
            forall|i: int| hi <= i < vs.len() ==> vs[i] != x@,
        decreases hi - lo,
    {
        let mid = lo + (hi - lo) / 2;
        if v[mid].le(x) {
            if x.le(&v[mid]) {
                proof {
                    T::lemma_le_antisymmetric(vs[mid as int], x@);
                    assert(vs.contains(x@));
                }
                return true;
            }
            proof {
                assert forall|i: int| 0 <= i <= mid implies vs[i] != x@ by {
                    if vs[i] == x@ && i < mid {
                        assert(T::le_view(vs[i], vs[mid as int]));
                    }
                }
            }
            lo = mid + 1;
        } else {
            proof {
                assert forall|i: int| mid <= i < vs.len() implies vs[i] != x@ by {
                    if vs[i] == x@ {
                        if i == mid {
                            T::lemma_le_total(x@, x@);
                        } else {
                            assert(T::le_view(vs[mid as int], vs[i]));
                        }
                    }
                }
            }
            hi = mid;
        }
    }
    proof {
        assert forall|i: int| 0 <= i < vs.len() implies vs[i] != x@ by {
        }
    }
    false
}

/// Re-verifies the ascending order by walking the whole vector; never a
/// cached or trivial answer, even for storage that keeps itself ordered.
pub fn is_sorted_vec<T: Out>(v: &Vec<T>) -> (r: bool)
    ensures
        r == sorted_le::<T>(seq_views(v@)),
{
    let ghost vs: Seq<T::V> = seq_views(v@);
    if v.len() == 0 {
        return true;
    }
    let mut i: usize = 0;
    while i < v.len() - 1
        invariant
            vs == seq_views(v@),
            v@.len() > 0,
            i <= v@.len() - 1,
            forall|k: int, l: int| 0 <= k < l <= i ==> #[trigger] T::le_view(vs[k], vs[l]),
        decreases v@.len() - i,
    {
        if !v[i].le(&v[i + 1]) {
            assert(!sorted_le::<T>(vs)) by {
                assert(!T::le_view(vs[i as int], vs[i as int + 1]));
            }
            return false;
        }
        proof {
            assert forall|k: int| 0 <= k < i implies #[trigger] T::le_view(
                vs[k],
                vs[i as int + 1],
            ) by {
                T::lemma_le_transitive(vs[k], vs[i as int], vs[i as int + 1]);
            }
        }
        i = i + 1;
    }
    true
}

/// The first position whose element lies strictly above `x` in an
/// ascending vector; everything before it lies at or below `x`.
fn position_above<T: Out>(v: &Vec<T>, x: &T) -> (p: usize)
    requires
        sorted_le::<T>(seq_views(v@)),
    ensures
        p <= v@.len(),
        forall|i: int| 0 <= i < p ==> #[trigger] T::le_view(v@[i]@, x@),
        forall|i: int| p <= i < v@.len() ==> !(#[trigger] T::le_view(v@[i]@, x@)),
{
    let ghost vs: Seq<T::V> = seq_views(v@);
    let mut lo: usize = 0;
    let mut hi: usize = v.len();
    while lo < hi
        invariant
            lo <= hi <= v@.len(),
            vs == seq_views(v@),
            sorted_le::<T>(vs),
            forall|i: int| 0 <= i < lo ==> #[trigger] T::le_view(vs[i], x@),
            forall|i: int| hi <= i < vs.len() ==> !(#[trigger] T::le_view(vs[i], x@)),
        decreases hi - lo,
    {
        let mid = lo + (hi - lo) / 2;
        if v[mid].le(x) {
            proof {
                assert forall|i: int| 0 <= i <= mid implies #[trigger] T::le_view(vs[i], x@) by {
                    if i < mid {
                        T::lemma_le_transitive(vs[i], vs[mid as int], x@);
                    }
                }
            }
            lo = mid + 1;
        } else {
            proof {
                assert forall|i: int| mid <= i < vs.len() implies !(#[trigger] T::le_view(
                    vs[i],
                    x@,
                )) by {
                    if i > mid && T::le_view(vs[i], x@) {
                        T::lemma_le_transitive(vs[mid as int], vs[i], x@);
                    }
                }
            }
            hi = mid;
        }
    }
    proof {
        assert forall|i: int| 0 <= i < lo implies #[trigger] T::le_view(v@[i]@, x@) by {
            assert(vs[i] == v@[i]@);
        }
        assert forall|i: int| lo <= i < v@.len() implies !(#[trigger] T::le_view(v@[i]@, x@)) by {
            assert(vs[i] == v@[i]@);
        }
    }
    lo
}

/// Inserts `x` into an ascending duplicate-free vector, keeping it
/// ascending and duplicate-free; a value whose view is already present is
/// merged away.
#[verifier::rlimit(30)]
pub fn insert_unique_sorted<T: Out>(v: &mut Vec<T>, x: T)
    requires
        sorted_unique::<T>(seq_views(old(v)@)),
    ensures
        sorted_unique::<T>(seq_views(final(v)@)),
        seq_views(final(v)@).to_set() == seq_views(old(v)@).to_set().insert(x@),
{
    proof {
        assert(sorted_le::<T>(seq_views(v@)));
    }
    if binary_search_vec(v, &x) {
        proof {
            assert(seq_views(v@).to_set().contains(x@));
            assert(seq_views(v@).to_set() =~= seq_views(v@).to_set().insert(x@));
        }
        return ;
    }
    let ghost pre: Seq<T::V> = seq_views(v@);
    let ghost vold: Seq<T> = v@;
    let p = position_above(v, &x);
    v.insert(p, x);
    proof {
        let vs = seq_views(v@);
        vold.insert_ensures(p as int, x);
        pre.insert_ensures(p as int, x@);
        assert forall|q: int| 0 <= q < vs.len() implies vs[q] == pre.insert(p as int, x@)[q] by {
            assert(vs[q] == v@[q]@);
            if q < p {
                assert(v@[q] == vold[q]);
            } else if q == p {
                assert(v@[q] == x);
            } else {
                assert(v@[q] == vold[q - 1]);
            }
        }
        assert(vs =~= pre.insert(p as int, x@));
        assert forall|i: int, j: int| #![trigger vs[i], vs[j]]
            0 <= i < j < vs.len() implies T::le_view(vs[i], vs[j]) && vs[i] != vs[j] by {
            if i < p {
                assert(vs[i] == pre[i]);
            }
            if j < p {
                assert(vs[j] == pre[j]);
            }
            if i > p {
                assert(vs[i] == pre[i - 1]);
            }
            if j > p {
                assert(vs[j] == pre[j - 1]);
            }
            if i == p && j > p {
                assert(!T::le_view(pre[j - 1], x@));
                T::lemma_le_total(x@, pre[j - 1]);
                assert(pre[j - 1] != x@) by {
                    if pre[j - 1] == x@ {
                        T::lemma_le_total(x@, x@);
                    }
                }
            }
            if i < p && j == p {
                assert(T::le_view(pre[i], x@));
                assert(pre[i] != x@) by {
                    assert(!pre.contains(x@));
                }
            }
            if i < p && j > p {
                assert(T::le_view(pre[i], pre[j - 1]) && pre[i] != pre[j - 1]);
            }
        }
        assert(sorted_unique::<T>(vs));
        assert forall|y: T::V| vs.to_set().contains(y) <==> pre.to_set().insert(x@).contains(
            y,
        ) by {
            if vs.contains(y) {
                let w = choose|k: int| 0 <= k < vs.len() && vs[k] == y;
                if w < p {
                    assert(pre[w] == y);
                } else if w == p {
                } else {
                    assert(pre[w - 1] == y);
                }
            }
            if pre.contains(y) {
                let w = choose|k: int| 0 <= k < pre.len() && pre[k] == y;
                if w < p {
                    assert(vs[w] == y);
                } else {
                    assert(vs[w + 1] == y);
                }
            }
            if y == x@ {
                assert(vs[p as int] == x@);
            }
        }
        assert(vs.to_set() =~= pre.to_set().insert(x@));
    }
}

/// A sorted rearrangement of an ascending duplicate-free sequence is still
/// duplicate-free, and its element set is unchanged.
pub proof fn lemma_sorted_rearrangement_unique<T: Out>(a: Seq<T::V>, b: Seq<T::V>)
    requires
        sorted_unique::<T>(a),
        b.to_multiset() == a.to_multiset(),
        sorted_le::<T>(b),
    ensures
        sorted_unique::<T>(b),
        b.to_set() == a.to_set(),
{
    assert(a.no_duplicates()) by {
        assert forall|i: int, j: int|
            (0 <= i < a.len() && 0 <= j < a.len() && i != j) implies a[i] != a[j] by {
            if i < j {
                assert(a[i] != a[j]);
            } else {
                assert(a[j] != a[i]);
            }
        }
    }
    a.lemma_multiset_has_no_duplicates();
    b.lemma_multiset_has_no_duplicates_conv();
    assert forall|i: int, j: int| #![trigger b[i], b[j]] 0 <= i < j < b.len() implies b[i]
        != b[j] by {
        assert(b.no_duplicates());
    }
    lemma_same_multiset_same_set(a, b);
}

/// Two sequences holding the same elements with multiplicity hold the same
/// element set.
pub proof fn lemma_same_multiset_same_set<A>(a: Seq<A>, b: Seq<A>)
    requires
        b.to_multiset() == a.to_multiset(),
    ensures
        b.to_set() == a.to_set(),
{
    assert forall|x: A| a.contains(x) <==> b.contains(x) by {
        assert(a.contains(x) <==> a.to_multiset().count(x) > 0);
        assert(b.contains(x) <==> b.to_multiset().count(x) > 0);
    }
    assert(b.to_set() =~= a.to_set());
}

/// An ascending duplicate-free sequence holds as many elements as its
/// element set.
pub proof fn lemma_sorted_unique_count<T: Out>(s: Seq<T::V>)
    requires
        sorted_unique::<T>(s),
    ensures
        s.no_duplicates(),
        s.len() == s.to_set().len(),
{
    assert(s.no_duplicates()) by {
        assert forall|i: int, j: int|
            (0 <= i < s.len() && 0 <= j < s.len() && i != j) implies s[i] != s[j] by {
            if i < j {
                assert(s[i] != s[j]);
            } else {
                assert(s[j] != s[i]);
            }
        }
    }
    s.unique_seq_to_set();
}

/// There is only one ascending duplicate-free arrangement of an element
/// set: two such sequences over one set are equal.
pub proof fn lemma_sorted_unique_same_set<T: Out>(a: Seq<T::V>, b: Seq<T::V>)
    requires
        sorted_unique::<T>(a),
        sorted_unique::<T>(b),
        a.to_set() == b.to_set(),
    ensures
        a == b,
    decreases a.len(),
{
    if a.len() == 0 {
        if b.len() > 0 {
            assert(b.to_set().contains(b[0]));
            assert(a.contains(b[0]));
            assert(false);
        }
        assert(a =~= b);
    } else {
        assert(a.to_set().contains(a[0]));
        assert(b.contains(a[0]));
        if b.len() == 0 {
            assert(false);
        }
        let j = choose|j: int| 0 <= j < b.len() && b[j] == a[0];
        assert(T::le_view(b[0], a[0])) by {
            if j > 0 {
                assert(T::le_view(b[0], b[j]));
            } else {
                T::lemma_le_total(b[0], b[0]);
            }
        }
        assert(b.to_set().contains(b[0]));
        assert(a.contains(b[0]));
        let i = choose|i: int| 0 <= i < a.len() && a[i] == b[0];
        assert(T::le_view(a[0], b[0])) by {
            if i > 0 {
                assert(T::le_view(a[0], a[i]));
            } else {
                T::lemma_le_total(a[0], a[0]);
            }
        }
        T::lemma_le_antisymmetric(a[0], b[0]);
        let ta = a.drop_first();
        let tb = b.drop_first();
        assert(sorted_unique::<T>(ta)) by {
            assert(forall|p: int| 0 <= p < ta.len() ==> ta[p] == a[p + 1]);
        }
        assert(sorted_unique::<T>(tb)) by {
            assert(forall|p: int| 0 <= p < tb.len() ==> tb[p] == b[p + 1]);
        }
        assert(ta.to_set() =~= tb.to_set()) by {
            assert forall|x: T::V| ta.contains(x) implies tb.contains(x) by {
                let p = choose|p: int| 0 <= p < ta.len() && ta[p] == x;
                assert(a[p + 1] == x);
                assert(x != a[0]);
                assert(b.contains(x)) by {
                    assert(a.to_set().contains(x));
                }
                let q = choose|q: int| 0 <= q < b.len() && b[q] == x;
                assert(q > 0) by {
                    if q == 0 {
                        assert(b[0] == a[0]);
                    }
                }
                assert(tb[q - 1] == x);
            }
            assert forall|x: T::V| tb.contains(x) implies ta.contains(x) by {
                let p = choose|p: int| 0 <= p < tb.len() && tb[p] == x;
                assert(b[p + 1] == x);
                assert(x != b[0]);
                assert(a.contains(x)) by {
                    assert(b.to_set().contains(x));
                }
                let q = choose|q: int| 0 <= q < a.len() && a[q] == x;
                assert(q > 0) by {
                    if q == 0 {
                        assert(a[0] == b[0]);
                    }
                }
                assert(ta[q - 1] == x);
            }
        }
        lemma_sorted_unique_same_set::<T>(ta, tb);
        assert(a =~= b) by {
            assert(forall|p: int| 1 <= p < a.len() ==> a[p] == ta[p - 1] && b[p] == tb[p - 1]);
        }
    }
}

/// The collection-backend capability: uniform operations over one of
/// several concrete storage strategies.
///
/// Two capability flags are part of the contract and are fixed per backend
/// at compile time: whether duplicate-equal entries are permitted
/// ([`OutCollection::allows_multiple_spec`]) and which of the two sort
/// modes are available. Invoking an unsupported sort mode signals a
/// [`UsageError`] instead of returning a misleading success.
pub trait OutCollection<T: Out>: Sized {
    /// The views of the elements held, in storage order.
    spec fn contents(&self) -> Seq<T::V>;

    /// The backend's structural invariant.
    spec fn wf(&self) -> bool;

    /// Whether duplicate-equal entries are permitted.
    spec fn allows_multiple_spec() -> bool;

    /// Whether the stable full sort is available.
    spec fn has_sort_spec() -> bool;

    /// Whether the unstable full sort is available.
    spec fn has_sort_unstable_spec() -> bool;

    /// The duplicate-permission flag, at run time.
    fn allows_multiple_equal_items() -> (r: bool)
        ensures
            r == Self::allows_multiple_spec(),
    ;

    /// The stable-sort flag, at run time.
    fn has_sort() -> (r: bool)
        ensures
            r == Self::has_sort_spec(),
    ;

    /// The unstable-sort flag, at run time.
    fn has_sort_unstable() -> (r: bool)
        ensures
            r == Self::has_sort_unstable_spec(),
    ;

    /// Constructs an empty collection.
    fn new() -> (r: Self)
        ensures
            r.wf(),
            r.contents() == Seq::<T::V>::empty(),
    ;

    /// Constructs an empty collection; the capacity is a hint, never a
    /// correctness requirement.
    fn with_capacity(capacity: usize) -> (r: Self)
        ensures
            r.wf(),
            r.contents() == Seq::<T::V>::empty(),
    ;

    /// Empties the collection in place, retaining backing storage where
    /// feasible.
    fn clear(&mut self)
        requires
            old(self).wf(),
        ensures
            final(self).wf(),
            final(self).contents() == Seq::<T::V>::empty(),
    ;

    /// The number of elements held.
    fn len(&self) -> (r: usize)
        requires
            self.wf(),
        ensures
            r == self.contents().len(),
    ;

    /// Read-only access to the element at a position, in storage order:
    /// with [`OutCollection::len`], a finite, restartable, read-only
    /// traversal.
    fn get(&self, i: usize) -> (r: &T)
        requires
            self.wf(),
            i < self.contents().len(),
        ensures
            r@ == self.contents()[i as int],
    ;

    /// Bulk insert of clones of the given items. A backend that forbids
    /// duplicate-equal entries silently merges them.
    fn extend(&mut self, items: &[T])
        requires
            old(self).wf(),
        ensures
            final(self).wf(),
            Self::allows_multiple_spec() ==> final(self).contents() == old(self).contents()
                + seq_views(items@),
            !Self::allows_multiple_spec() ==> sorted_unique::<T>(final(self).contents())
                && final(self).contents().to_set() == old(self).contents().to_set().union(
                seq_views(items@).to_set(),
            ),
    ;

    /// Actively re-verifies the ascending order, walking every element on
    /// every call, also on backends that keep themselves ordered.
    fn is_sorted(&self) -> (r: bool)
        requires
            self.wf(),
        ensures
            r == sorted_le::<T>(self.contents()),
    ;

    /// Stable full sort. On a backend without the stable sort this signals
    /// a [`UsageError`] and leaves the collection unchanged; on an
    /// order-keeping backend it is a no-op.
    fn sort(&mut self) -> (r: Result<(), UsageError>)
        requires
            old(self).wf(),
        ensures
            final(self).wf(),
            Self::has_sort_spec() ==> r is Ok && sorted_le::<T>(final(self).contents())
                && final(self).contents().to_multiset() == old(self).contents().to_multiset(),
            !Self::has_sort_spec() ==> r is Err && final(self).contents() == old(self).contents(),
    ;

    /// Unstable full sort. On a backend without it this signals a
    /// [`UsageError`] and leaves the collection unchanged.
    fn sort_unstable(&mut self) -> (r: Result<(), UsageError>)
        requires
            old(self).wf(),
        ensures
            final(self).wf(),
            Self::has_sort_unstable_spec() ==> r is Ok && sorted_le::<T>(final(self).contents())
                && final(self).contents().to_multiset() == old(self).contents().to_multiset(),
            !Self::has_sort_unstable_spec() ==> r is Err && final(self).contents() == old(
                self,
            ).contents(),
    ;

    /// Whether an element whose view equals `x`'s is present, decided
    /// against the sorted collection.
    fn binary_search(&self, x: &T) -> (r: bool)
        requires
            self.wf(),
            sorted_le::<T>(self.contents()),
        ensures
            r == self.contents().contains(x@),
    ;
}

/// The growable multiset-sequence backend: unordered on insertion,
/// preserves insertion order, allows duplicate-equal entries, supports both
/// sort modes.
pub struct OutCollectionVec<T: Out> {
    pub vec: Vec<T>,
}

impl<T: Out> OutCollection<T> for OutCollectionVec<T> {
    open spec fn contents(&self) -> Seq<T::V> {
        seq_views(self.vec@)
    }

    open spec fn wf(&self) -> bool {
        true
    }

    open spec fn allows_multiple_spec() -> bool {
        true
    }

    open spec fn has_sort_spec() -> bool {
        true
    }

    open spec fn has_sort_unstable_spec() -> bool {
        true
    }

    fn allows_multiple_equal_items() -> (r: bool) {
        true
    }

    fn has_sort() -> (r: bool) {
        true
    }

    fn has_sort_unstable() -> (r: bool) {
        true
    }

    fn new() -> (r: Self) {
        let r = OutCollectionVec { vec: Vec::new() };
        proof {
            assert(r.contents() =~= Seq::<T::V>::empty());
        }
        r
    }

    fn with_capacity(capacity: usize) -> (r: Self) {
        let r = OutCollectionVec { vec: Vec::with_capacity(capacity) };
        proof {
            assert(r.contents() =~= Seq::<T::V>::empty());
        }
        r
    }

    fn clear(&mut self) {
        self.vec.clear();
        proof {
            assert(self.contents() =~= Seq::<T::V>::empty());
        }
    }

    fn len(&self) -> (r: usize) {
        self.vec.len()
    }

    fn get(&self, i: usize) -> (r: &T) {
        &self.vec[i]
    }

    fn extend(&mut self, items: &[T]) {
        let mut k: usize = 0;
        proof {
            assert(seq_views(self.vec@) =~= seq_views(old(self).vec@) + seq_views(
                items@.subrange(0, 0),
            ));
        }
        while k < items.len()
            invariant
                k <= items@.len(),
                seq_views(self.vec@) == seq_views(old(self).vec@) + seq_views(
                    items@.subrange(0, k as int),
                ),
            decreases items@.len() - k,
        {
            let ghost prev: Seq<T> = self.vec@;
            self.vec.push(items[k].clone_item());
            proof {
                let c = self.vec@[prev.len() as int];
                assert(self.vec@ == prev.push(c));
                assert(c@ == items@[k as int]@);
                assert(seq_views(self.vec@) =~= seq_views(prev).push(c@));
                assert(seq_views(items@.subrange(0, k as int + 1)) =~= seq_views(
                    items@.subrange(0, k as int),
                ).push(items@[k as int]@));
                assert(seq_views(self.vec@) =~= seq_views(old(self).vec@) + seq_views(
                    items@.subrange(0, k as int + 1),
                ));
            }
            k = k + 1;
        }
        proof {
            assert(items@.subrange(0, items@.len() as int) == items@);
        }
    }

    fn is_sorted(&self) -> (r: bool) {
        is_sorted_vec(&self.vec)
    }

    fn sort(&mut self) -> (r: Result<(), UsageError>) {
        sort_vec(&mut self.vec);
        Ok(())
    }

    fn sort_unstable(&mut self) -> (r: Result<(), UsageError>) {
        sort_vec(&mut self.vec);
        Ok(())
    }

    fn binary_search(&self, x: &T) -> (r: bool) {
        binary_search_vec(&self.vec, x)
    }
}

/// The unique-ordered-set backend: insertion order is irrelevant,
/// duplicate-equal entries silently collapse, iteration always yields
/// ascending order. The stable sort is a no-op; the unstable sort is
/// unsupported and signals a usage error.
pub struct OutCollectionSet<T: Out> {
    pub vec: Vec<T>,
}

impl<T: Out> OutCollection<T> for OutCollectionSet<T> {
    open spec fn contents(&self) -> Seq<T::V> {
        seq_views(self.vec@)
    }

    open spec fn wf(&self) -> bool {
        sorted_unique::<T>(seq_views(self.vec@))
    }

    open spec fn allows_multiple_spec() -> bool {
        false
    }

    open spec fn has_sort_spec() -> bool {
        true
    }

    open spec fn has_sort_unstable_spec() -> bool {
        false
    }

    fn allows_multiple_equal_items() -> (r: bool) {
        false
    }

    fn has_sort() -> (r: bool) {
        true
    }

    fn has_sort_unstable() -> (r: bool) {
        false
    }

    fn new() -> (r: Self) {
        let r = OutCollectionSet { vec: Vec::new() };
        proof {
            assert(r.contents() =~= Seq::<T::V>::empty());
        }
        r
    }

    fn with_capacity(capacity: usize) -> (r: Self) {
        let r = OutCollectionSet { vec: Vec::with_capacity(capacity) };
        proof {
            assert(r.contents() =~= Seq::<T::V>::empty());
        }
        r
    }

    fn clear(&mut self) {
        self.vec.clear();
        proof {
            assert(self.contents() =~= Seq::<T::V>::empty());
        }
    }

    fn len(&self) -> (r: usize) {
        self.vec.len()
    }

    fn get(&self, i: usize) -> (r: &T) {
        &self.vec[i]
    }

    fn extend(&mut self, items: &[T]) {
        let mut k: usize = 0;
        proof {
            assert(seq_views(self.vec@).to_set() =~= seq_views(old(self).vec@).to_set().union(
                seq_views(items@.subrange(0, 0)).to_set(),
            ));
        }
        while k < items.len()
            invariant
                k <= items@.len(),
                sorted_unique::<T>(seq_views(self.vec@)),
                seq_views(self.vec@).to_set() == seq_views(old(self).vec@).to_set().union(
                    seq_views(items@.subrange(0, k as int)).to_set(),
                ),
            decreases items@.len() - k,
        {
            let ghost prefix: Seq<T::V> = seq_views(items@.subrange(0, k as int));
            insert_unique_sorted(&mut self.vec, items[k].clone_item());
            proof {
                let longer: Seq<T::V> = seq_views(items@.subrange(0, k as int + 1));
                assert(longer =~= prefix.push(items@[k as int]@));
                assert forall|y: T::V|
                    longer.to_set().contains(y) <==> prefix.to_set().insert(
                        items@[k as int]@,
                    ).contains(y) by {
                    if longer.contains(y) && y != items@[k as int]@ {
                        let w = choose|i: int| 0 <= i < longer.len() && longer[i] == y;
                        assert(prefix[w] == y);
                    }
                    if prefix.contains(y) {
                        let w = choose|i: int| 0 <= i < prefix.len() && prefix[i] == y;
                        assert(longer[w] == y);
                    }
                    if y == items@[k as int]@ {
                        assert(longer[prefix.len() as int] == y);
                    }
                }
                assert(seq_views(self.vec@).to_set() =~= seq_views(old(self).vec@).to_set().union(
                    longer.to_set(),
                ));
            }
            k = k + 1;
        }
        proof {
            assert(items@.subrange(0, items@.len() as int) == items@);
        }
    }

    fn is_sorted(&self) -> (r: bool) {
        is_sorted_vec(&self.vec)
    }

    fn sort(&mut self) -> (r: Result<(), UsageError>) {
        Ok(())
    }

    fn sort_unstable(&mut self) -> (r: Result<(), UsageError>) {
        Err(UsageError)
    }

    fn binary_search(&self, x: &T) -> (r: bool) {
        binary_search_vec(&self.vec, x)
    }
}

/// The fixed-capacity-sequence backend: the semantics of the
/// multiset-sequence backend in a no-allocation, slice-oriented setting.
/// It models an environment without a stable in-place sort: the stable
/// sort is unsupported and signals a usage error; the unstable sort works.
pub struct OutCollectionSlice<T: Out> {
    pub vec: Vec<T>,
}

impl<T: Out> OutCollection<T> for OutCollectionSlice<T> {
    open spec fn contents(&self) -> Seq<T::V> {
        seq_views(self.vec@)
    }

    open spec fn wf(&self) -> bool {
        true
    }

    open spec fn allows_multiple_spec() -> bool {
        true
    }

    open spec fn has_sort_spec() -> bool {
        false
    }

    open spec fn has_sort_unstable_spec() -> bool {
        true
    }

    fn allows_multiple_equal_items() -> (r: bool) {
        true
    }

    fn has_sort() -> (r: bool) {
        false
    }

    fn has_sort_unstable() -> (r: bool) {
        true
    }

    fn new() -> (r: Self) {
        let r = OutCollectionSlice { vec: Vec::new() };
        proof {
            assert(r.contents() =~= Seq::<T::V>::empty());
        }
        r
    }

    fn with_capacity(capacity: usize) -> (r: Self) {
        let r = OutCollectionSlice { vec: Vec::with_capacity(capacity) };
        proof {
            assert(r.contents() =~= Seq::<T::V>::empty());
        }
        r
    }

    fn clear(&mut self) {
        self.vec.clear();
        proof {
            assert(self.contents() =~= Seq::<T::V>::empty());
        }
    }

    fn len(&self) -> (r: usize) {
        self.vec.len()
    }

    fn get(&self, i: usize) -> (r: &T) {
        &self.vec[i]
    }

    fn extend(&mut self, items: &[T]) {
        let mut k: usize = 0;
        proof {
            assert(seq_views(self.vec@) =~= seq_views(old(self).vec@) + seq_views(
                items@.subrange(0, 0),
            ));
        }
        while k < items.len()
            invariant
                k <= items@.len(),
                seq_views(self.vec@) == seq_views(old(self).vec@) + seq_views(
                    items@.subrange(0, k as int),
                ),
            decreases items@.len() - k,
        {
            let ghost prev: Seq<T> = self.vec@;
            self.vec.push(items[k].clone_item());
            proof {
                let c = self.vec@[prev.len() as int];
                assert(self.vec@ == prev.push(c));
                assert(c@ == items@[k as int]@);
                assert(seq_views(self.vec@) =~= seq_views(prev).push(c@));
                assert(seq_views(items@.subrange(0, k as int + 1)) =~= seq_views(
                    items@.subrange(0, k as int),
                ).push(items@[k as int]@));
                assert(seq_views(self.vec@) =~= seq_views(old(self).vec@) + seq_views(
                    items@.subrange(0, k as int + 1),
                ));
            }
            k = k + 1;
        }
        proof {
            assert(items@.subrange(0, items@.len() as int) == items@);
        }
    }

    fn is_sorted(&self) -> (r: bool) {
        is_sorted_vec(&self.vec)
    }

    fn sort(&mut self) -> (r: Result<(), UsageError>) {
        Err(UsageError)
    }

    fn sort_unstable(&mut self) -> (r: Result<(), UsageError>) {
        sort_vec(&mut self.vec);
        Ok(())
    }

    fn binary_search(&self, x: &T) -> (r: bool) {
        binary_search_vec(&self.vec, x)
    }
}

} // verus!
