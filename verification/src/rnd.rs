//! The seeded pseudo-random test-data source, backed by fastrand's
//! generator, and the [`Random`] capability for constructing one from a
//! textual seed.
//!
//! One source instance is created per set of compared benchmark cases, so
//! that cases need no shared mutable generator; the caller supplies the
//! seed, and everything drawn from it is a function of that seed alone.

use crate::data::{ConfigError, Data, DataItems};
use crate::parse::{
    dec_digit_value, hex_digit_value, is_dec_digit, is_hex_digit, parse_u64_dec, parse_u64_hex,
    radix_value, valid_u64_text,
};
use vstd::prelude::*;

verus! {

/// The byte fastrand draws from `[lo, hi]` when its state is `state`.
pub uninterp spec fn draw_u8(state: u64, lo: u8, hi: u8) -> u8;

/// fastrand's state after that draw.
pub uninterp spec fn state_after_u8(state: u64, lo: u8, hi: u8) -> u64;

/// The value fastrand draws from `[lo, hi]` when its state is `state`.
pub uninterp spec fn draw_u64(state: u64, lo: u64, hi: u64) -> u64;

/// fastrand's state after that draw.
pub uninterp spec fn state_after_u64(state: u64, lo: u64, hi: u64) -> u64;

/// The alphanumeric character fastrand draws when its state is `state`.
pub uninterp spec fn draw_alphanumeric(state: u64) -> char;

/// fastrand's state after that draw.
pub uninterp spec fn state_after_alphanumeric(state: u64) -> u64;

/// Whether a character is one fastrand's alphanumeric draw can produce:
/// a basic digit or letter.
pub open spec fn is_alphanumeric_char(c: char) -> bool {
    48 <= c as int <= 57 || 65 <= c as int <= 90 || 97 <= c as int <= 122
}

/// Relies on fastrand::Rng::u8, with Rng::with_seed and Rng::get_seed
/// carrying the generator's whole state (one 64-bit word) in and out: the
/// draw lies in the closed range, and both it and the successor state are
/// functions of the state and bounds alone; the generator consults no
/// other entropy.
#[verifier::external_body]
fn rng_u8(state: u64, lo: u8, hi: u8) -> (r: (u8, u64))
    requires
        lo <= hi,
    ensures
        r.0 == draw_u8(state, lo, hi),
        lo <= r.0 <= hi,
        r.1 == state_after_u8(state, lo, hi),
{
    let mut rng = fastrand::Rng::with_seed(state);
    let x = rng.u8(lo..=hi);
    (x, rng.get_seed())
}

/// Relies on fastrand::Rng::u64, with Rng::with_seed and Rng::get_seed
/// carrying the generator's state: the draw lies in the closed range, and
/// both it and the successor state are functions of the state and bounds
/// alone.
#[verifier::external_body]
fn rng_u64(state: u64, lo: u64, hi: u64) -> (r: (u64, u64))
    requires
        lo <= hi,
    ensures
        r.0 == draw_u64(state, lo, hi),
        lo <= r.0 <= hi,
        r.1 == state_after_u64(state, lo, hi),
{
    let mut rng = fastrand::Rng::with_seed(state);
    let x = rng.u64(lo..=hi);
    (x, rng.get_seed())
}

/// Relies on fastrand::Rng::alphanumeric, with Rng::with_seed and
/// Rng::get_seed carrying the generator's state: the draw is one of the
/// 62 basic digits and letters, and both it and the successor state are
/// functions of the state alone.
#[verifier::external_body]
fn rng_alphanumeric(state: u64) -> (r: (char, u64))
    ensures
        r.0 == draw_alphanumeric(state),
        is_alphanumeric_char(r.0),
        r.1 == state_after_alphanumeric(state),
{
    let mut rng = fastrand::Rng::with_seed(state);
    let c = rng.alphanumeric();
    (c, rng.get_seed())
}

/// Relies on std's String::push: appends exactly the one character.
#[verifier::external_body]
fn push_char(s: &mut String, c: char)
    ensures
        final(s)@ == old(s)@.push(c),
{
    s.push(c);
}

/// The seeded pseudo-random test-data source. Its whole state is the one
/// 64-bit word fastrand's generator keeps (fastrand seeds a generator with
/// exactly that word and hands it back after each draw), so a value of
/// this type pins every draw made from it.
pub struct Rnd {
    pub state: u64,
}

impl Rnd {
    /// A source whose draws start from the given seed.
    pub fn with_seed(seed: u64) -> (r: Rnd)
        ensures
            r == (Rnd { state: seed }),
    {
        Rnd { state: seed }
    }
}

/// The character sequence drawn by `n` alphanumeric draws in a row from
/// the given state, together with the state afterwards.
pub open spec fn spec_alnum_chars(state: u64, n: nat) -> (Seq<char>, u64)
    decreases n,
{
    if n == 0 {
        (Seq::<char>::empty(), state)
    } else {
        let rest = spec_alnum_chars(state_after_alphanumeric(state), (n - 1) as nat);
        (seq![draw_alphanumeric(state)] + rest.0, rest.1)
    }
}

impl DataItems for Rnd {
    open spec fn spec_num_items(&self, min: usize, max: usize) -> usize {
        draw_u64(self.state, min as u64, (max - 1) as u64) as usize
    }

    open spec fn spec_num_items_next(&self, min: usize, max: usize) -> Self {
        Rnd { state: state_after_u64(self.state, min as u64, (max - 1) as u64) }
    }

    fn num_items(&mut self, min: usize, max: usize) -> (r: usize)
        ensures
            min <= r < max,
    {
        let drawn = rng_u64(self.state, min as u64, (max - 1) as u64);
        self.state = drawn.1;
        drawn.0 as usize
    }
}

impl Data for Rnd {
    open spec fn spec_u8(&self, lo: u8, hi: u8) -> u8 {
        draw_u8(self.state, lo, hi)
    }

    open spec fn spec_u8_next(&self, lo: u8, hi: u8) -> Self {
        Rnd { state: state_after_u8(self.state, lo, hi) }
    }

    fn u8(&mut self, lo: u8, hi: u8) -> (r: u8) {
        let drawn = rng_u8(self.state, lo, hi);
        self.state = drawn.1;
        drawn.0
    }

    open spec fn spec_char(&self) -> char {
        draw_alphanumeric(self.state)
    }

    open spec fn spec_char_next(&self) -> Self {
        Rnd { state: state_after_alphanumeric(self.state) }
    }

    fn char(&mut self) -> (r: char)
        ensures
            is_alphanumeric_char(r),
    {
        let drawn = rng_alphanumeric(self.state);
        self.state = drawn.1;
        drawn.0
    }

    open spec fn spec_usize(&self, lo: usize, hi: usize) -> usize {
        draw_u64(self.state, lo as u64, (hi - 1) as u64) as usize
    }

    open spec fn spec_usize_next(&self, lo: usize, hi: usize) -> Self {
        Rnd { state: state_after_u64(self.state, lo as u64, (hi - 1) as u64) }
    }

    fn usize(&mut self, lo: usize, hi: usize) -> (r: usize) {
        let drawn = rng_u64(self.state, lo as u64, (hi - 1) as u64);
        self.state = drawn.1;
        drawn.0 as usize
    }

    open spec fn spec_string(&self, min_len: usize, max_len: usize) -> Seq<char> {
        spec_alnum_chars(
            state_after_u64(self.state, min_len as u64, (max_len - 1) as u64),
            self.spec_usize(min_len, max_len) as nat,
        ).0
    }

    open spec fn spec_string_next(&self, min_len: usize, max_len: usize) -> Self {
        Rnd {
            state: spec_alnum_chars(
                state_after_u64(self.state, min_len as u64, (max_len - 1) as u64),
                self.spec_usize(min_len, max_len) as nat,
            ).1,
        }
    }

    fn string_for_len_range(&mut self, min_len: usize, max_len: usize) -> (r: String)
        ensures
            min_len <= r@.len() < max_len,
            forall|i: int| 0 <= i < r@.len() ==> is_alphanumeric_char(#[trigger] r@[i]),
    {
        let n = self.usize(min_len, max_len);
        let ghost total = spec_alnum_chars(self.state, n as nat);
        let mut s = String::new();
        let mut i: usize = 0;
        while i < n
            invariant
                i <= n,
                s@.len() == i,
                s@ + spec_alnum_chars(self.state, (n - i) as nat).0 == total.0,
                spec_alnum_chars(self.state, (n - i) as nat).1 == total.1,
                forall|k: int| 0 <= k < i ==> is_alphanumeric_char(#[trigger] s@[k]),
            decreases n - i,
        {
            let ghost pre: u64 = self.state;
            let c = self.char();
            push_char(&mut s, c);
            proof {
                let rest = spec_alnum_chars(pre, (n - i) as nat);
                assert(rest.0 == seq![draw_alphanumeric(pre)] + spec_alnum_chars(
                    self.state,
                    (n - i - 1) as nat,
                ).0);
                assert(s@ + spec_alnum_chars(self.state, (n - i - 1) as nat).0 =~= total.0);
            }
            i = i + 1;
        }
        proof {
            assert(spec_alnum_chars(self.state, 0).0 == Seq::<char>::empty());
            assert(s@ =~= total.0);
        }
        s
    }
}

/// The capability of a test-data source to be constructed from a textual
/// seed: exactly one of the two accepted encodings, decimal or
/// hexadecimal, must be supplied.
pub trait Random: Data {
    /// Whether `r` is this source freshly seeded with `seed`.
    spec fn seeded(r: Self, seed: u64) -> bool;

    /// Constructs the source from a decimal-encoded seed; a text that is
    /// not a decimal 64-bit value is a fatal configuration error.
    fn with_seed_dec(seed: &str) -> (r: Result<Self, ConfigError>)
        ensures
            (if valid_u64_text(
                seed@,
                10,
                |c: char| is_dec_digit(c),
                |c: char| dec_digit_value(c),
            ) {
                r matches Ok(v) && Self::seeded(
                    v,
                    radix_value(seed@, 10, |c: char| dec_digit_value(c)) as u64,
                )
            } else {
                r matches Err(e) && (e matches ConfigError::InvalidNumber { text } && text@
                    == seed@)
            }),
    ;

    /// Constructs the source from a hexadecimal-encoded seed (either
    /// letter case, no prefix); a text that is not a hexadecimal 64-bit
    /// value is a fatal configuration error.
    fn with_seed_hex(seed: &str) -> (r: Result<Self, ConfigError>)
        ensures
            (if valid_u64_text(
                seed@,
                16,
                |c: char| is_hex_digit(c),
                |c: char| hex_digit_value(c),
            ) {
                r matches Ok(v) && Self::seeded(
                    v,
                    radix_value(seed@, 16, |c: char| hex_digit_value(c)) as u64,
                )
            } else {
                r matches Err(e) && (e matches ConfigError::InvalidNumber { text } && text@
                    == seed@)
            }),
    ;

    /// Constructs the source from whichever seed encoding was supplied.
    /// Supplying both, or neither, is a fatal configuration error whose
    /// diagnostic carries both supplied values.
    fn with_seed(dec: Option<&str>, hex: Option<&str>) -> (r: Result<Self, ConfigError>)
        ensures
            dec is Some && hex is Some ==> (r matches Err(e) && (e matches ConfigError::BothSeeds {
                dec: d,
                hex: h,
            } && d@ == dec.unwrap()@ && h@ == hex.unwrap()@)),
            dec is None && hex is None ==> (r matches Err(e) && e is NoSeed),
            dec is Some && hex is None ==> (if valid_u64_text(
                dec.unwrap()@,
                10,
                |c: char| is_dec_digit(c),
                |c: char| dec_digit_value(c),
            ) {
                r matches Ok(v) && Self::seeded(
                    v,
                    radix_value(dec.unwrap()@, 10, |c: char| dec_digit_value(c)) as u64,
                )
            } else {
                r matches Err(e) && (e matches ConfigError::InvalidNumber { text } && text@
                    == dec.unwrap()@)
            }),
            dec is None && hex is Some ==> (if valid_u64_text(
                hex.unwrap()@,
                16,
                |c: char| is_hex_digit(c),
                |c: char| hex_digit_value(c),
            ) {
                r matches Ok(v) && Self::seeded(
                    v,
                    radix_value(hex.unwrap()@, 16, |c: char| hex_digit_value(c)) as u64,
                )
            } else {
                r matches Err(e) && (e matches ConfigError::InvalidNumber { text } && text@
                    == hex.unwrap()@)
            }),
    {
        match (dec, hex) {
            (Some(d), Some(h)) => Err(
                ConfigError::BothSeeds { dec: d.to_owned(), hex: h.to_owned() },
            ),
            (Some(d), None) => Self::with_seed_dec(d),
            (None, Some(h)) => Self::with_seed_hex(h),
            (None, None) => Err(ConfigError::NoSeed),
        }
    }
}

impl Random for Rnd {
    open spec fn seeded(r: Self, seed: u64) -> bool {
        r == (Rnd { state: seed })
    }

    fn with_seed_dec(seed: &str) -> (r: Result<Self, ConfigError>) {
        match parse_u64_dec(seed) {
            Some(v) => Ok(Rnd::with_seed(v)),
            None => Err(ConfigError::InvalidNumber { text: seed.to_owned() }),
        }
    }

    fn with_seed_hex(seed: &str) -> (r: Result<Self, ConfigError>) {
        match parse_u64_hex(seed) {
            Some(v) => Ok(Rnd::with_seed(v)),
            None => Err(ConfigError::InvalidNumber { text: seed.to_owned() }),
        }
    }
}

} // verus!
