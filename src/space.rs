//! The combination space: an alphabet, a length, and the lines they render.
use vstd::prelude::*;

use crate::codec::{
    as_nats, digits_valid, index_to_digits, lemma_to_digits_shape, pow_u64, power, to_digits,
};

verus! {

/// The line feed that ends every rendered combination.
pub const NEWLINE: u8 = 10;

/// Why a space cannot be built.
#[derive(Debug, Clone, Copy, PartialEq, Eq, Structural)]
pub enum ConfigError {
    /// The combination length is zero.
    ZeroLength,
    /// The alphabet holds no byte.
    EmptyCharset,
    /// The alphabet holds a single byte, so it has no radix to count in.
    CharsetTooSmall,
    /// `base^length` does not fit in a 64-bit index.
    Overflow,
}

/// The bytes of `charset` picked by the digits `ds`, in digit order.
pub open spec fn render(charset: Seq<u8>, ds: Seq<nat>) -> Seq<u8> {
    Seq::new(ds.len(), |j: int| charset[ds[j] as int])
}

/// The combination of rank `index`: its digits rendered through the alphabet.
pub open spec fn combination(charset: Seq<u8>, length: nat, index: nat) -> Seq<u8> {
    render(charset, to_digits(index, charset.len(), length))
}

/// The output line of rank `index`: the combination and a line feed.
pub open spec fn line(charset: Seq<u8>, length: nat, index: nat) -> Seq<u8> {
    combination(charset, length, index).push(NEWLINE)
}

/// The lines of ranks `start .. start + count`, in rank order.
pub open spec fn lines(charset: Seq<u8>, length: nat, start: nat, count: nat) -> Seq<u8>
    decreases count,
{
    if count == 0 {
        Seq::empty()
    } else {
        lines(charset, length, start, (count - 1) as nat) + line(
            charset,
            length,
            (start + count - 1) as nat,
        )
    }
}

/// The 94 printable ASCII bytes from `!` to `~`.
pub open spec fn printable_ascii() -> Seq<u8> {
    Seq::new(94, |i: int| (33 + i) as u8)
}

/// The default alphabet: the printable ASCII bytes, in byte order.
pub fn default_charset() -> (charset: Vec<u8>)
    ensures
        charset@ == printable_ascii(),
{
    let mut charset: Vec<u8> = Vec::with_capacity(94);
    let mut b: u8 = 33;
    while b <= 126
        invariant
            33 <= b <= 127,
            charset@ == printable_ascii().subrange(0, b - 33),
        decreases 127 - b,
    {
        charset.push(b);
        b = b + 1;
    }
    proof {
        assert(printable_ascii().subrange(0, 94) =~= printable_ascii());
    }
    charset
}

/// Appends the line for `digits`: each digit's byte of `charset`, then a line feed.
pub fn generate_combo_fast(digits: &Vec<usize>, charset: &Vec<u8>, out: &mut Vec<u8>)
    requires
        digits_valid(as_nats(digits@), charset@.len()),
    ensures
        final(out)@ == old(out)@ + render(charset@, as_nats(digits@)).push(NEWLINE),
{
    let ghost start = out@;
    let mut j: usize = 0;
    while j < digits.len()
        invariant
            j <= digits@.len(),
            digits_valid(as_nats(digits@), charset@.len()),
            out@ == start + render(charset@, as_nats(digits@)).subrange(0, j as int),
        decreases digits@.len() - j,
    {
        let d = digits[j];
        assert(as_nats(digits@)[j as int] == d as nat);
        out.push(charset[d]);
        j = j + 1;
        assert(render(charset@, as_nats(digits@)).subrange(0, j as int) =~= render(
            charset@,
            as_nats(digits@),
        ).subrange(0, j - 1).push(charset@[d as int]));
    }
    out.push(NEWLINE);
    assert(render(charset@, as_nats(digits@)).subrange(0, digits@.len() as int) =~= render(
        charset@,
        as_nats(digits@),
    ));
}

/// An alphabet of at least two bytes and a positive length whose
/// `base^length` combinations are indexed by `u64`.
pub struct Space {
    charset: Vec<u8>,
    length: usize,
    total: u64,
}

impl Space {
    /// The alphabet.
    pub closed spec fn spec_charset(&self) -> Seq<u8> {
        self.charset@
    }

    /// The combination length.
    pub closed spec fn spec_length(&self) -> nat {
        self.length as nat
    }

    /// The number of combinations.
    pub closed spec fn spec_total(&self) -> nat {
        self.total as nat
    }

    /// The radix: the size of the alphabet.
    pub open spec fn spec_base(&self) -> nat {
        self.spec_charset().len()
    }

    /// What every space satisfies.
    pub open spec fn wf(&self) -> bool {
        &&& self.spec_base() >= 2
        &&& self.spec_length() >= 1
        &&& self.spec_total() == power(self.spec_base(), self.spec_length())
        &&& self.spec_total() <= u64::MAX
    }

    /// The combination of rank `index` in this space.
    pub open spec fn spec_combination(&self, index: nat) -> Seq<u8> {
        combination(self.spec_charset(), self.spec_length(), index)
    }

    /// The lines of ranks `start .. start + count` in this space.
    pub open spec fn spec_lines(&self, start: nat, count: nat) -> Seq<u8> {
        lines(self.spec_charset(), self.spec_length(), start, count)
    }

    /// Builds the space of `charset` and `length`. Fails on a zero length,
    /// then on an alphabet of fewer than two bytes, then when `base^length`
    /// overflows 64 bits.
    pub fn new(charset: Vec<u8>, length: usize) -> (r: Result<Space, ConfigError>)
        ensures
            length == 0 ==> r == Err::<Space, ConfigError>(ConfigError::ZeroLength),
            length > 0 && charset@.len() == 0 ==> r == Err::<Space, ConfigError>(
                ConfigError::EmptyCharset,
            ),
            length > 0 && charset@.len() == 1 ==> r == Err::<Space, ConfigError>(
                ConfigError::CharsetTooSmall,
            ),
            length > 0 && charset@.len() >= 2 && power(charset@.len(), length as nat) > u64::MAX
                ==> r == Err::<Space, ConfigError>(ConfigError::Overflow),
            r is Ok <==> (length > 0 && charset@.len() >= 2 && power(
                charset@.len(),
                length as nat,
            ) <= u64::MAX),
            r matches Ok(s) ==> s.wf() && s.spec_charset() == charset@ && s.spec_length()
                == length,
    {
        if length == 0 {
            return Err(ConfigError::ZeroLength);
        }
        if charset.len() == 0 {
            return Err(ConfigError::EmptyCharset);
        }
        if charset.len() == 1 {
            return Err(ConfigError::CharsetTooSmall);
        }
        match pow_u64(charset.len() as u64, length) {
            Some(total) => Ok(Space { charset, length, total }),
            None => Err(ConfigError::Overflow),
        }
    }

    /// The alphabet.
    pub fn charset(&self) -> (r: &Vec<u8>)
        ensures
            r@ == self.spec_charset(),
    {
        &self.charset
    }

    /// The combination length.
    pub fn length(&self) -> (r: usize)
        ensures
            r == self.spec_length(),
    {
        self.length
    }

    /// The radix: the size of the alphabet.
    pub fn base(&self) -> (r: usize)
        ensures
            r == self.spec_base(),
    {
        self.charset.len()
    }

    /// The number of combinations, `base^length`.
    pub fn total(&self) -> (r: u64)
        ensures
            r == self.spec_total(),
    {
        self.total
    }

    /// The combination of rank `index`, without its line feed.
    pub fn combination(&self, index: u64) -> (r: Vec<u8>)
        requires
            self.wf(),
            index < self.spec_total(),
        ensures
            r@ == self.spec_combination(index as nat),
    {
        let digits = index_to_digits(index, self.charset.len(), self.length);
        proof {
            lemma_to_digits_shape(index as nat, self.spec_base(), self.spec_length());
        }
        let mut out: Vec<u8> = Vec::with_capacity(self.length);
        generate_combo_fast(&digits, &self.charset, &mut out);
        let _ = out.pop();
        assert(out@ =~= render(self.charset@, as_nats(digits@)));
        out
    }
}

} // verus!
