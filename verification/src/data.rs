//! Dataset generation: a capability for drawing test data from a seeded
//! source ([`Data`]), generation of the "owned" item sequence, derivation
//! of the "output" item sequence through the active representation, and
//! the duplicate-elimination invariant with its minimum-population check.

use crate::outish::{
    lemma_sorted_unique_count, lemma_sorted_unique_same_set, seq_views, sorted_unique, Out,
    OutCollection, OutCollectionSet, OutFrom,
};
use crate::rnd::Rnd;
use crate::parse::{dec_digit_value, is_dec_digit, parse_usize_dec, radix_value, valid_u64_text};
use vstd::prelude::*;

verus! {

/// Default least number of test items (before removing duplicates).
pub const MIN_ITEMS: usize = 1000;

/// Default greatest number of test items (exclusive).
pub const MAX_ITEMS: usize = 500000;

/// Default least length of an item that is itself a buffer, in elements
/// (for text, in characters, so the encoded length may be up to four times
/// higher).
pub const MIN_ITEM_LEN: usize = 1;

/// Default greatest length (exclusive) of an item that is itself a buffer,
/// in elements.
pub const MAX_ITEM_LEN: usize = 1000;

/// The least number of distinct output items a deduplicated dataset must
/// keep: with fewer than two distinct values, comparing sort orders is
/// meaningless, and the run must abort rather than measure.
pub const MIN_POPULATION: usize = 2;

/// A configuration error: fatal, never recovered; the caller is expected
/// to stop the run and report it.
#[derive(PartialEq, Eq, Debug)]
pub enum ConfigError {
    /// Both seed encodings were supplied, with these values; exactly one
    /// is required.
    BothSeeds { dec: String, hex: String },
    /// Neither seed encoding was supplied.
    NoSeed,
    /// A numeric setting holds this text, which is not a well-formed
    /// number in the expected encoding or range.
    InvalidNumber { text: String },
}

/// The dataset would be too small to measure: after removing duplicates,
/// fewer than [`MIN_POPULATION`] output items were left. The counts name
/// the requested item count, the count actually generated, and the count
/// left after deduplication.
pub struct PopulationError {
    pub requested: usize,
    pub generated: usize,
    pub after_dedup: usize,
}

/// A numeric setting from the environment: the supplied text parsed as a
/// decimal number, the default where nothing was supplied, and a fatal
/// [`ConfigError`] where the text does not parse.
pub fn from_env_or(value: Option<&str>, otherwise: usize) -> (r: Result<usize, ConfigError>)
    ensures
        value is None ==> r == Result::<usize, ConfigError>::Ok(otherwise),
        value matches Some(s) ==> (if valid_u64_text(
            s@,
            10,
            |c: char| is_dec_digit(c),
            |c: char| dec_digit_value(c),
        ) && radix_value(s@, 10, |c: char| dec_digit_value(c)) <= usize::MAX {
            r matches Ok(v) && v as int == radix_value(s@, 10, |c: char| dec_digit_value(c))
        } else {
            r matches Err(e) && (e matches ConfigError::InvalidNumber { text } && text@ == s@)
        }),
{
    match value {
        None => Ok(otherwise),
        Some(s) => match parse_usize_dec(s) {
            Some(v) => Ok(v),
            None => Err(ConfigError::InvalidNumber { text: s.to_owned() }),
        },
    }
}

/// The configured least number of test items: the supplied decimal text,
/// or [`MIN_ITEMS`] where nothing was supplied.
pub fn min_items(value: Option<&str>) -> (r: Result<usize, ConfigError>)
    ensures
        value is None ==> r == Result::<usize, ConfigError>::Ok(MIN_ITEMS as usize),
        value matches Some(s) ==> (if valid_u64_text(
            s@,
            10,
            |c: char| is_dec_digit(c),
            |c: char| dec_digit_value(c),
        ) && radix_value(s@, 10, |c: char| dec_digit_value(c)) <= usize::MAX {
            r matches Ok(v) && v as int == radix_value(s@, 10, |c: char| dec_digit_value(c))
        } else {
            r matches Err(e) && (e matches ConfigError::InvalidNumber { text } && text@ == s@)
        }),
{
    from_env_or(value, MIN_ITEMS)
}

/// The configured greatest number of test items (exclusive): the supplied
/// decimal text, or [`MAX_ITEMS`] where nothing was supplied.
pub fn max_items(value: Option<&str>) -> (r: Result<usize, ConfigError>)
    ensures
        value is None ==> r == Result::<usize, ConfigError>::Ok(MAX_ITEMS as usize),
        value matches Some(s) ==> (if valid_u64_text(
            s@,
            10,
            |c: char| is_dec_digit(c),
            |c: char| dec_digit_value(c),
        ) && radix_value(s@, 10, |c: char| dec_digit_value(c)) <= usize::MAX {
            r matches Ok(v) && v as int == radix_value(s@, 10, |c: char| dec_digit_value(c))
        } else {
            r matches Err(e) && (e matches ConfigError::InvalidNumber { text } && text@ == s@)
        }),
{
    from_env_or(value, MAX_ITEMS)
}

/// The configured least buffer-item length: the supplied decimal text, or
/// [`MIN_ITEM_LEN`] where nothing was supplied.
pub fn min_item_len(value: Option<&str>) -> (r: Result<usize, ConfigError>)
    ensures
        value is None ==> r == Result::<usize, ConfigError>::Ok(MIN_ITEM_LEN as usize),
        value matches Some(s) ==> (if valid_u64_text(
            s@,
            10,
            |c: char| is_dec_digit(c),
            |c: char| dec_digit_value(c),
        ) && radix_value(s@, 10, |c: char| dec_digit_value(c)) <= usize::MAX {
            r matches Ok(v) && v as int == radix_value(s@, 10, |c: char| dec_digit_value(c))
        } else {
            r matches Err(e) && (e matches ConfigError::InvalidNumber { text } && text@ == s@)
        }),
{
    from_env_or(value, MIN_ITEM_LEN)
}

/// The configured greatest buffer-item length (exclusive): the supplied
/// decimal text, or [`MAX_ITEM_LEN`] where nothing was supplied.
pub fn max_item_len(value: Option<&str>) -> (r: Result<usize, ConfigError>)
    ensures
        value is None ==> r == Result::<usize, ConfigError>::Ok(MAX_ITEM_LEN as usize),
        value matches Some(s) ==> (if valid_u64_text(
            s@,
            10,
            |c: char| is_dec_digit(c),
            |c: char| dec_digit_value(c),
        ) && radix_value(s@, 10, |c: char| dec_digit_value(c)) <= usize::MAX {
            r matches Ok(v) && v as int == radix_value(s@, 10, |c: char| dec_digit_value(c))
        } else {
            r matches Err(e) && (e matches ConfigError::InvalidNumber { text } && text@ == s@)
        }),
{
    from_env_or(value, MAX_ITEM_LEN)
}

/// The capability of a test-data source to say how many items to draw.
/// Every draw is a function of the source's value, so a whole generation
/// run is reproducible from the source's starting value.
pub trait DataItems: Sized {
    /// The count this source draws next, as a function of its value.
    spec fn spec_num_items(&self, min: usize, max: usize) -> usize;

    /// The source as it is after drawing the count.
    spec fn spec_num_items_next(&self, min: usize, max: usize) -> Self;

    /// Draws the number of items to generate. A pseudo-random source draws
    /// it from `[min, max)`; a replaying source may answer with what it
    /// has left.
    fn num_items(&mut self, min: usize, max: usize) -> (r: usize)
        requires
            min < max,
        ensures
            r == old(self).spec_num_items(min, max),
            *final(self) == old(self).spec_num_items_next(min, max),
    ;
}

/// The capability of a test-data source to draw scalar, character and
/// text values. Each draw is pinned to a function of the source's value,
/// which makes generation deterministic per source value.
pub trait Data: DataItems {
    /// The byte this source draws next from `[lo, hi]`.
    spec fn spec_u8(&self, lo: u8, hi: u8) -> u8;

    /// The source as it is after drawing that byte.
    spec fn spec_u8_next(&self, lo: u8, hi: u8) -> Self;

    /// Draws a byte from the closed range `[lo, hi]`.
    fn u8(&mut self, lo: u8, hi: u8) -> (r: u8)
        requires
            lo <= hi,
        ensures
            lo <= r <= hi,
            r == old(self).spec_u8(lo, hi),
            *final(self) == old(self).spec_u8_next(lo, hi),
    ;

    /// The character this source draws next.
    spec fn spec_char(&self) -> char;

    /// The source as it is after drawing that character.
    spec fn spec_char_next(&self) -> Self;

    /// Draws a character (an alphanumeric one, for sources that choose).
    fn char(&mut self) -> (r: char)
        ensures
            r == old(self).spec_char(),
            *final(self) == old(self).spec_char_next(),
    ;

    /// The machine-size value this source draws next from `[lo, hi)`.
    spec fn spec_usize(&self, lo: usize, hi: usize) -> usize;

    /// The source as it is after drawing that value.
    spec fn spec_usize_next(&self, lo: usize, hi: usize) -> Self;

    /// Draws a machine-size value from the half-open range `[lo, hi)`.
    fn usize(&mut self, lo: usize, hi: usize) -> (r: usize)
        requires
            lo < hi,
        ensures
            lo <= r < hi,
            r == old(self).spec_usize(lo, hi),
            *final(self) == old(self).spec_usize_next(lo, hi),
    ;

    /// The text this source draws next, given a length range in
    /// characters.
    spec fn spec_string(&self, min_len: usize, max_len: usize) -> Seq<char>;

    /// The source as it is after drawing that text.
    spec fn spec_string_next(&self, min_len: usize, max_len: usize) -> Self;

    /// Draws a text buffer. The length range is in characters, not bytes;
    /// a replaying source may answer with a prepared text instead.
    fn string_for_len_range(&mut self, min_len: usize, max_len: usize) -> (r: String)
        requires
            min_len < max_len,
        ensures
            r@ == old(self).spec_string(min_len, max_len),
            *final(self) == old(self).spec_string_next(min_len, max_len),
    ;
}

/// The capability of an owned-item type to be generated from a test-data
/// source, one item per call, with the result pinned to a function of the
/// source's value.
pub trait GenOwn<D: Data>: Sized + View {
    /// The view of the item this source generates next.
    spec fn spec_gen(d: D, min_len: usize, max_len: usize) -> Self::V;

    /// The source as it is after generating that item.
    spec fn spec_gen_next(d: D, min_len: usize, max_len: usize) -> D;

    /// Generates one owned item. The length bounds apply to buffer items
    /// and are ignored by scalar ones.
    fn gen_own(data: &mut D, min_len: usize, max_len: usize) -> (r: Self)
        requires
            min_len < max_len,
        ensures
            r@ == Self::spec_gen(*old(data), min_len, max_len),
            *final(data) == Self::spec_gen_next(*old(data), min_len, max_len),
    ;
}

/// A raw scalar owned item: one full-range byte per item.
impl<D: Data> GenOwn<D> for u8 {
    open spec fn spec_gen(d: D, min_len: usize, max_len: usize) -> u8 {
        d.spec_u8(0, 255)
    }

    open spec fn spec_gen_next(d: D, min_len: usize, max_len: usize) -> D {
        d.spec_u8_next(0, 255)
    }

    fn gen_own(data: &mut D, min_len: usize, max_len: usize) -> (r: Self) {
        data.u8(0, 255)
    }
}

/// A text-buffer owned item: one drawn text per item.
impl<D: Data> GenOwn<D> for String {
    open spec fn spec_gen(d: D, min_len: usize, max_len: usize) -> Seq<char> {
        d.spec_string(min_len, max_len)
    }

    open spec fn spec_gen_next(d: D, min_len: usize, max_len: usize) -> D {
        d.spec_string_next(min_len, max_len)
    }

    fn gen_own(data: &mut D, min_len: usize, max_len: usize) -> (r: Self) {
        data.string_for_len_range(min_len, max_len)
    }
}

/// The byte sequence a source generates by drawing `n` full-range bytes,
/// together with the source as it is afterwards.
pub open spec fn spec_gen_bytes<D: Data>(d: D, n: nat) -> (Seq<u8>, D)
    decreases n,
{
    if n == 0 {
        (Seq::<u8>::empty(), d)
    } else {
        let rest = spec_gen_bytes::<D>(d.spec_u8_next(0, 255), (n - 1) as nat);
        (seq![d.spec_u8(0, 255)] + rest.0, rest.1)
    }
}

/// A byte-buffer owned item: a drawn length, then that many bytes.
impl<D: Data> GenOwn<D> for Vec<u8> {
    open spec fn spec_gen(d: D, min_len: usize, max_len: usize) -> Seq<u8> {
        spec_gen_bytes::<D>(
            d.spec_usize_next(min_len, max_len),
            d.spec_usize(min_len, max_len) as nat,
        ).0
    }

    open spec fn spec_gen_next(d: D, min_len: usize, max_len: usize) -> D {
        spec_gen_bytes::<D>(
            d.spec_usize_next(min_len, max_len),
            d.spec_usize(min_len, max_len) as nat,
        ).1
    }

    fn gen_own(data: &mut D, min_len: usize, max_len: usize) -> (r: Self) {
        let n = data.usize(min_len, max_len);
        let ghost total = spec_gen_bytes::<D>(*data, n as nat);
        let mut v: Vec<u8> = Vec::with_capacity(n);
        let mut i: usize = 0;
        while i < n
            invariant
                i <= n,
                v@.len() == i,
                v@ + spec_gen_bytes::<D>(*data, (n - i) as nat).0 == total.0,
                spec_gen_bytes::<D>(*data, (n - i) as nat).1 == total.1,
            decreases n - i,
        {
            let ghost dpre: D = *data;
            let x = data.u8(0, 255);
            v.push(x);
            proof {
                let rest = spec_gen_bytes::<D>(dpre, (n - i) as nat);
                assert(rest.0 == seq![dpre.spec_u8(0, 255)] + spec_gen_bytes::<D>(
                    *data,
                    (n - i - 1) as nat,
                ).0);
                assert(v@ + spec_gen_bytes::<D>(*data, (n - i - 1) as nat).0 =~= total.0);
            }
            i = i + 1;
        }
        proof {
            assert(spec_gen_bytes::<D>(*data, 0).0 == Seq::<u8>::empty());
            assert(v@ =~= total.0);
        }
        v
    }
}

/// The views of the owned items a source generates by drawing `n` items in
/// a row, together with the source as it is afterwards.
pub open spec fn spec_own_items<OwnType: GenOwn<D>, D: Data>(
    d: D,
    n: nat,
    min_len: usize,
    max_len: usize,
) -> (Seq<OwnType::V>, D)
    decreases n,
{
    if n == 0 {
        (Seq::<OwnType::V>::empty(), d)
    } else {
        let rest = spec_own_items::<OwnType, D>(
            OwnType::spec_gen_next(d, min_len, max_len),
            (n - 1) as nat,
            min_len,
            max_len,
        );
        (seq![OwnType::spec_gen(d, min_len, max_len)] + rest.0, rest.1)
    }
}

/// Generates the owned dataset: draws an item count, then that many owned
/// items, all from one source, so the result is a function of the source's
/// starting value.
pub fn data_own<OwnType: GenOwn<DataImpl>, DataImpl: Data>(
    data: &mut DataImpl,
    min_items: usize,
    max_items: usize,
    min_len: usize,
    max_len: usize,
) -> (r: Vec<OwnType>)
    requires
        min_items < max_items,
        min_len < max_len,
    ensures
        ({
            let n = old(data).spec_num_items(min_items, max_items);
            let g = spec_own_items::<OwnType, DataImpl>(
                old(data).spec_num_items_next(min_items, max_items),
                n as nat,
                min_len,
                max_len,
            );
            &&& r@.len() == n
            &&& seq_views(r@) == g.0
            &&& *final(data) == g.1
        }),
{
    let num_items = data.num_items(min_items, max_items);
    let ghost total = spec_own_items::<OwnType, DataImpl>(
        *data,
        num_items as nat,
        min_len,
        max_len,
    );
    let mut own_items: Vec<OwnType> = Vec::with_capacity(num_items);
    let mut i: usize = 0;
    proof {
        assert(seq_views(own_items@) =~= Seq::<OwnType::V>::empty());
    }
    while i < num_items
        invariant
            i <= num_items,
            own_items@.len() == i,
            min_len < max_len,
            seq_views(own_items@) + spec_own_items::<OwnType, DataImpl>(
                *data,
                (num_items - i) as nat,
                min_len,
                max_len,
            ).0 == total.0,
            spec_own_items::<OwnType, DataImpl>(
                *data,
                (num_items - i) as nat,
                min_len,
                max_len,
            ).1 == total.1,
        decreases num_items - i,
    {
        let ghost dpre: DataImpl = *data;
        let ghost vpre: Seq<OwnType> = own_items@;
        let item = OwnType::gen_own(data, min_len, max_len);
        own_items.push(item);
        proof {
            let rest = spec_own_items::<OwnType, DataImpl>(
                dpre,
                (num_items - i) as nat,
                min_len,
                max_len,
            );
            assert(rest.0 == seq![OwnType::spec_gen(dpre, min_len, max_len)]
                + spec_own_items::<OwnType, DataImpl>(
                OwnType::spec_gen_next(dpre, min_len, max_len),
                (num_items - i - 1) as nat,
                min_len,
                max_len,
            ).0);
            assert(own_items@ == vpre.push(own_items@[vpre.len() as int]));
            assert(seq_views(own_items@) =~= seq_views(vpre).push(
                own_items@[vpre.len() as int]@,
            ));
            assert(seq_views(own_items@) + spec_own_items::<OwnType, DataImpl>(
                *data,
                (num_items - i - 1) as nat,
                min_len,
                max_len,
            ).0 =~= total.0);
        }
        i = i + 1;
    }
    proof {
        assert(spec_own_items::<OwnType, DataImpl>(*data, 0, min_len, max_len).0
            == Seq::<OwnType::V>::empty());
        assert(seq_views(own_items@) =~= total.0);
    }
    own_items
}

/// The whole outcome of one generation run from a given source value: the
/// views of the owned items, the views of the derived output items (before
/// any deduplication), and the source as it is afterwards.
pub open spec fn spec_dataset<OwnType: GenOwn<D>, OutType: OutFrom<OwnType>, D: Data>(
    d: D,
    min_items: usize,
    max_items: usize,
    min_len: usize,
    max_len: usize,
) -> (Seq<OwnType::V>, Seq<OutType::V>, D) {
    let n = d.spec_num_items(min_items, max_items);
    let g = spec_own_items::<OwnType, D>(
        d.spec_num_items_next(min_items, max_items),
        n as nat,
        min_len,
        max_len,
    );
    (g.0, g.0.map_values(|o: OwnType::V| OutType::of_own_view(o)), g.1)
}

/// The derived output views are the owned views, element-wise through the
/// active representation.
pub proof fn lemma_spec_dataset_out<OwnType: GenOwn<D>, OutType: OutFrom<OwnType>, D: Data>(
    d: D,
    min_items: usize,
    max_items: usize,
    min_len: usize,
    max_len: usize,
)
    ensures
        ({
            let ds = spec_dataset::<OwnType, OutType, D>(d, min_items, max_items, min_len, max_len);
            &&& ds.1.len() == ds.0.len()
            &&& forall|i: int|
                0 <= i < ds.0.len() ==> #[trigger] ds.1[i] == OutType::of_own_view(ds.0[i])
        }),
{
}

/// The generated dataset: the owned items, and the output items derived
/// from them through the active representation. `output.len()` equals
/// `owned.len()` right after generation; when the active backend forbids
/// duplicate-equal items, a deduplication pass may shrink `out` while
/// `own` is left untouched.
pub struct OwnAndOut<OwnType, OutType> {
    pub own: Vec<OwnType>,
    /// Unsorted.
    pub out: Vec<OutType>,
}

/// What a generation run promises of its result, relative to the source
/// value `d` it started from: the owned items are pinned to the source;
/// the output items are the derived views, deduplicated into the one
/// ascending arrangement when `allows_multiple_equal_items` is false; and
/// generation fails exactly when deduplication leaves the output below
/// [`MIN_POPULATION`], with a diagnostic carrying all three counts.
pub open spec fn dataset_post<OwnType: GenOwn<D> + View, OutType: OutFrom<OwnType>, D: Data>(
    d: D,
    min_items: usize,
    max_items: usize,
    min_len: usize,
    max_len: usize,
    allows_multiple_equal_items: bool,
    r: Result<OwnAndOut<OwnType, OutType>, PopulationError>,
) -> bool {
    let ds = spec_dataset::<OwnType, OutType, D>(d, min_items, max_items, min_len, max_len);
    &&& (r matches Ok(oo) ==> seq_views(oo.own@) == ds.0 && oo.own@.len() == d.spec_num_items(
        min_items,
        max_items,
    ))
    &&& (allows_multiple_equal_items ==> (r matches Ok(oo) && seq_views(oo.out@) == ds.1))
    &&& (!allows_multiple_equal_items ==> {
        &&& (r is Ok <==> ds.1.to_set().len() >= MIN_POPULATION)
        &&& (r matches Ok(oo) ==> sorted_unique::<OutType>(seq_views(oo.out@)) && seq_views(
            oo.out@,
        ).to_set() == ds.1.to_set() && oo.out@.len() == ds.1.to_set().len())
        &&& (r matches Err(e) ==> e.requested == d.spec_num_items(min_items, max_items)
            && e.generated == ds.1.len() && e.after_dedup == ds.1.to_set().len())
    })
}

impl<OwnType, OutType> OwnAndOut<OwnType, OutType> {
    /// Generates the dataset from the given source: draws the item count,
    /// generates that many owned items, derives one output item per owned
    /// item, and, where the active backend forbids duplicate-equal items,
    /// deduplicates the output through a temporary unique-ordered
    /// collection and checks the minimum-population invariant. A
    /// population below [`MIN_POPULATION`] is fatal: the dataset would be
    /// meaningless, so generation reports the three counts instead.
    pub fn new_for_data<DataImpl: Data>(
        data: &mut DataImpl,
        min_items: usize,
        max_items: usize,
        min_len: usize,
        max_len: usize,
        allows_multiple_equal_items: bool,
    ) -> (r: Result<Self, PopulationError>) where
        OwnType: GenOwn<DataImpl>,
        OutType: OutFrom<OwnType>,

        requires
            min_items < max_items,
            min_len < max_len,
        ensures
            dataset_post::<OwnType, OutType, DataImpl>(
                *old(data),
                min_items,
                max_items,
                min_len,
                max_len,
                allows_multiple_equal_items,
                r,
            ),
            *final(data) == spec_dataset::<OwnType, OutType, DataImpl>(
                *old(data),
                min_items,
                max_items,
                min_len,
                max_len,
            ).2,
    {
        let ghost ds = spec_dataset::<OwnType, OutType, DataImpl>(
            *old(data),
            min_items,
            max_items,
            min_len,
            max_len,
        );
        let own: Vec<OwnType> = data_own(data, min_items, max_items, min_len, max_len);
        let mut out: Vec<OutType> = Vec::with_capacity(own.len());
        let mut k: usize = 0;
        proof {
            lemma_spec_dataset_out::<OwnType, OutType, DataImpl>(
                *old(data),
                min_items,
                max_items,
                min_len,
                max_len,
            );
            assert(seq_views(own@).len() == own@.len());
            assert(seq_views(out@) =~= ds.1.subrange(0, 0));
        }
        while k < own.len()
            invariant
                k <= own@.len(),
                own@.len() == ds.0.len(),
                seq_views(own@) == ds.0,
                ds.1.len() == ds.0.len(),
                forall|i: int|
                    0 <= i < ds.0.len() ==> #[trigger] ds.1[i] == OutType::of_own_view(ds.0[i]),
                seq_views(out@) == ds.1.subrange(0, k as int),
            decreases own@.len() - k,
        {
            let ghost prev: Seq<OutType> = out@;
            out.push(OutType::of_own(&own[k]));
            proof {
                assert(seq_views(prev).len() == prev.len());
                assert(prev.len() == k as int);
                assert(out@ == prev.push(out@[prev.len() as int]));
                assert(out@.len() == k as int + 1);
                assert(out@[prev.len() as int]@ == OutType::of_own_view(own@[k as int]@));
                assert(ds.1[k as int] == OutType::of_own_view(ds.0[k as int]));
                assert(ds.0[k as int] == own@[k as int]@);
                assert forall|q: int| 0 <= q < out@.len() implies seq_views(out@)[q] == ds.1.subrange(
                    0,
                    k as int + 1,
                )[q] by {
                    if q < prev.len() {
                        assert(seq_views(out@)[q] == prev[q]@);
                        assert(seq_views(prev)[q] == prev[q]@);
                    }
                }
                assert(seq_views(out@) =~= ds.1.subrange(0, k as int + 1));
            }
            k = k + 1;
        }
        proof {
            assert(ds.1.subrange(0, ds.1.len() as int) == ds.1);
            assert(ds.1.len() == ds.0.len());
            assert(seq_views(out@) == ds.1);
        }
        if allows_multiple_equal_items {
            Ok(OwnAndOut { own, out })
        } else {
            let requested = own.len();
            let generated = out.len();
            let mut unique: OutCollectionSet<OutType> = OutCollectionSet::with_capacity(generated);
            unique.extend(out.as_slice());
            let ded = unique.vec;
            proof {
                assert(seq_views(ded@).to_set() =~= ds.1.to_set());
                lemma_sorted_unique_count::<OutType>(seq_views(ded@));
                assert(seq_views(ded@).len() == ded@.len());
            }
            let after_dedup = ded.len();
            if after_dedup < MIN_POPULATION {
                Err(PopulationError { requested, generated, after_dedup })
            } else {
                Ok(OwnAndOut { own, out: ded })
            }
        }
    }

    /// Generates the dataset from a fresh pseudo-random source seeded with
    /// `seed`. Identical seed and bounds reproduce the identical dataset:
    /// everything the result holds is pinned to functions of them.
    pub fn new_for_rnd(
        seed: u64,
        min_items: usize,
        max_items: usize,
        min_len: usize,
        max_len: usize,
        allows_multiple_equal_items: bool,
    ) -> (r: Result<Self, PopulationError>) where
        OwnType: GenOwn<Rnd>,
        OutType: OutFrom<OwnType>,

        requires
            min_items < max_items,
            min_len < max_len,
        ensures
            dataset_post::<OwnType, OutType, Rnd>(
                Rnd { state: seed },
                min_items,
                max_items,
                min_len,
                max_len,
                allows_multiple_equal_items,
                r,
            ),
    {
        let mut rnd = Rnd::with_seed(seed);
        Self::new_for_data(
            &mut rnd,
            min_items,
            max_items,
            min_len,
            max_len,
            allows_multiple_equal_items,
        )
    }
}

/// Determinism of generation: from identical seeds and identical bounds,
/// the generator produces the identical dataset, for it consults no source
/// of entropy besides the seeded source.
pub proof fn lemma_generate_deterministic<OwnType: GenOwn<Rnd>, OutType: OutFrom<OwnType>>(
    s1: u64,
    s2: u64,
    min_items: usize,
    max_items: usize,
    min_len: usize,
    max_len: usize,
)
    requires
        s1 == s2,
    ensures
        spec_dataset::<OwnType, OutType, Rnd>(
            Rnd { state: s1 },
            min_items,
            max_items,
            min_len,
            max_len,
        ) == spec_dataset::<OwnType, OutType, Rnd>(
            Rnd { state: s2 },
            min_items,
            max_items,
            min_len,
            max_len,
        ),
{
}

/// Determinism of generation, stated of the results themselves: two runs
/// from identical seeds and identical bounds either both succeed with
/// byte-identical datasets (the deduplicated output included, for the
/// ascending duplicate-free arrangement of an element set is unique), or
/// both fail with the identical diagnostic counts.
pub proof fn lemma_generated_datasets_identical<OwnType: GenOwn<Rnd>, OutType: OutFrom<OwnType>>(
    seed: u64,
    min_items: usize,
    max_items: usize,
    min_len: usize,
    max_len: usize,
    allows_multiple_equal_items: bool,
    r1: Result<OwnAndOut<OwnType, OutType>, PopulationError>,
    r2: Result<OwnAndOut<OwnType, OutType>, PopulationError>,
)
    requires
        dataset_post::<OwnType, OutType, Rnd>(
            Rnd { state: seed },
            min_items,
            max_items,
            min_len,
            max_len,
            allows_multiple_equal_items,
            r1,
        ),
        dataset_post::<OwnType, OutType, Rnd>(
            Rnd { state: seed },
            min_items,
            max_items,
            min_len,
            max_len,
            allows_multiple_equal_items,
            r2,
        ),
    ensures
        r1 is Ok <==> r2 is Ok,
        r1 matches Ok(a) ==> (r2 matches Ok(b) && seq_views(a.own@) == seq_views(b.own@)
            && seq_views(a.out@) == seq_views(b.out@)),
        r1 matches Err(a) ==> (r2 matches Err(b) && a.requested == b.requested && a.generated
            == b.generated && a.after_dedup == b.after_dedup),
{
    if r1 is Ok && r2 is Ok && !allows_multiple_equal_items {
        let a = r1->Ok_0;
        let b = r2->Ok_0;
        lemma_sorted_unique_same_set::<OutType>(seq_views(a.out@), seq_views(b.out@));
    }
}

} // verus!
