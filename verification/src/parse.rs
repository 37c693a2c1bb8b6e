//! Parsers for the command-line tokens: the register address, index ranges
//! and bit specifications.

use crate::text::{
    chars_of, digit_value, join, lemma_digits_exclude, lemma_split_around_separator,
    lemma_split_join, lemma_split_without_separator, parse_number, parse_unsigned, parts_view,
    split, split_chars,
};
use crate::register::REGISTER_BITS;
use core::ops::Range;
use vstd::prelude::*;
use vstd::slice::slice_subrange;

verus! {

/// Why a token was not accepted.
#[derive(Clone, Copy, Debug, PartialEq, Eq, Structural)]
pub enum ParseError {
    /// The token is not a decimal or `0x`-prefixed hexadecimal 64-bit number.
    InvalidAddress,
    /// The token is neither `N` nor `N-M`.
    InvalidRange,
    /// The token is neither `bits` nor `cores:bits`.
    InvalidSpec,
}

/// A half-open interval `[start, end)` of indices.
pub struct Span {
    pub start: nat,
    pub end: nat,
}

/// The largest number that a range string may hold. Indices are sixteen bits
/// wide, as the number of cores is; the end of a range may be one more.
pub const MAX_INDEX: u32 = 65535;

/// Which bits to toggle on which cores: every bit of `bits` on every core of
/// `cores`, both half-open.
#[derive(Debug, PartialEq, Eq)]
pub struct BitSpec {
    pub cores: Range<u32>,
    pub bits: Range<u32>,
}

/// The mathematical content of a [`BitSpec`].
pub struct Rect {
    pub cores: Span,
    pub bits: Span,
}

impl View for BitSpec {
    type V = Rect;

    open spec fn view(&self) -> Rect {
        Rect {
            cores: Span { start: self.cores.start as nat, end: self.cores.end as nat },
            bits: Span { start: self.bits.start as nat, end: self.bits.end as nat },
        }
    }
}

impl Rect {
    /// Whether the specification selects at least one position and only
    /// positions that exist on a machine of `num_cores` cores.
    pub open spec fn well_formed(self, num_cores: nat) -> bool {
        &&& self.cores.start < self.cores.end <= num_cores
        &&& self.bits.start < self.bits.end <= REGISTER_BITS
    }
}

impl BitSpec {
    /// Whether both ranges are well formed: not empty, not inverted, and
    /// within the cores of the machine and the bits of a register.
    pub fn is_well_formed(&self, num_cores: u16) -> (ok: bool)
        ensures
            ok == self@.well_formed(num_cores as nat),
    {
        self.cores.start < self.cores.end && self.cores.end <= num_cores as u32
            && self.bits.start < self.bits.end && self.bits.end <= REGISTER_BITS
    }
}

impl Clone for BitSpec {
    fn clone(&self) -> (out: BitSpec)
        ensures
            out@ == self@,
    {
        BitSpec {
            cores: self.cores.start..self.cores.end,
            bits: self.bits.start..self.bits.end,
        }
    }
}

/// Whether `s` begins with the two characters `0x`.
pub open spec fn has_hex_prefix(s: Seq<char>) -> bool {
    s.len() >= 2 && s[0] == '0' && s[1] == 'x'
}

/// The address that `s` denotes: hexadecimal digits after a `0x` prefix,
/// decimal digits otherwise, in either case at least one digit and a value
/// that fits in 64 bits.
pub open spec fn address_of(s: Seq<char>) -> Option<nat> {
    if has_hex_prefix(s) {
        parse_unsigned(s.skip(2), 16, u64::MAX as nat)
    } else {
        parse_unsigned(s, 10, u64::MAX as nat)
    }
}

/// The index that `s` denotes: a decimal number of at most [`MAX_INDEX`].
pub open spec fn index_of(s: Seq<char>) -> Option<nat> {
    parse_unsigned(s, 10, MAX_INDEX as nat)
}

/// The range that `s` denotes. `N` is the single index `[N, N + 1)`, `N-M` is
/// `[N, M)`, whether or not `N < M`; nothing else is a range.
pub open spec fn range_of(s: Seq<char>) -> Option<Span> {
    let parts = split(s, '-');
    if parts.len() == 1 {
        match index_of(parts[0]) {
            Some(n) => Some(Span { start: n, end: n + 1 }),
            None => None,
        }
    } else if parts.len() == 2 {
        match (index_of(parts[0]), index_of(parts[1])) {
            (Some(n), Some(m)) => Some(Span { start: n, end: m }),
            _ => None,
        }
    } else {
        None
    }
}

/// The bit specification that `s` denotes on a machine of `num_cores` cores.
/// `bits` selects the bit range on all cores, `cores:bits` on the given core
/// range; nothing else is a specification.
pub open spec fn bit_spec_of(s: Seq<char>, num_cores: nat) -> Option<Rect> {
    let parts = split(s, ':');
    if parts.len() == 1 {
        match range_of(parts[0]) {
            Some(bits) => Some(Rect { cores: Span { start: 0, end: num_cores }, bits }),
            None => None,
        }
    } else if parts.len() == 2 {
        match (range_of(parts[0]), range_of(parts[1])) {
            (Some(cores), Some(bits)) => Some(Rect { cores, bits }),
            _ => None,
        }
    } else {
        None
    }
}

/// Parses a register address, decimal or `0x`-prefixed hexadecimal.
pub fn parse_msr_addr(input: &str) -> (res: Result<u64, ParseError>)
    ensures
        match address_of(input@) {
            Some(addr) => res == Ok::<u64, ParseError>(addr as u64),
            None => res == Err::<u64, ParseError>(ParseError::InvalidAddress),
        },
{
    let chars = chars_of(input);
    let hex = chars.len() >= 2 && chars[0] == '0' && chars[1] == 'x';
    let number = if hex {
        proof {
            assert(chars@.skip(2) == chars@.subrange(2, chars.len() as int));
        }
        parse_number(slice_subrange(chars.as_slice(), 2, chars.len()), 16, u64::MAX)
    } else {
        parse_number(chars.as_slice(), 10, u64::MAX)
    };
    match number {
        Some(addr) => Ok(addr),
        None => Err(ParseError::InvalidAddress),
    }
}

/// Reads all of `chars` as an index.
fn parse_index(chars: &[char]) -> (out: Option<u32>)
    ensures
        match index_of(chars@) {
            Some(n) => out == Some(n as u32),
            None => out is None,
        },
{
    match parse_number(chars, 10, MAX_INDEX as u64) {
        Some(n) => Some(n as u32),
        None => None,
    }
}

/// Reads all of `chars` as a range.
fn range_from_chars(chars: &[char]) -> (out: Option<Range<u32>>)
    ensures
        match range_of(chars@) {
            Some(span) => out matches Some(r) && r.start == span.start && r.end == span.end,
            None => out is None,
        },
{
    let parts = split_chars(chars, '-');
    proof {
        assert(parts_view(parts@).len() == parts.len());
    }
    if parts.len() == 1 {
        assert(parts_view(parts@)[0] == parts[0]@);
        match parse_index(parts[0].as_slice()) {
            Some(n) => Some(n..n + 1),
            None => None,
        }
    } else if parts.len() == 2 {
        assert(parts_view(parts@)[0] == parts[0]@);
        assert(parts_view(parts@)[1] == parts[1]@);
        match (parse_index(parts[0].as_slice()), parse_index(parts[1].as_slice())) {
            (Some(n), Some(m)) => Some(n..m),
            _ => None,
        }
    } else {
        None
    }
}

/// Parses an index range, `N` or `N-M`.
pub fn parse_range(rng_str: &str) -> (res: Result<Range<u32>, ParseError>)
    ensures
        match range_of(rng_str@) {
            Some(span) => res matches Ok(r) && r.start == span.start && r.end == span.end,
            None => res == Err::<Range<u32>, ParseError>(ParseError::InvalidRange),
        },
{
    let chars = chars_of(rng_str);
    match range_from_chars(chars.as_slice()) {
        Some(r) => Ok(r),
        None => Err(ParseError::InvalidRange),
    }
}

/// Parses one bit specification, `bits` or `cores:bits`, for a machine of
/// `num_cores` cores.
pub fn parse_spec(token: &str, num_cores: u16) -> (res: Result<BitSpec, ParseError>)
    ensures
        match bit_spec_of(token@, num_cores as nat) {
            Some(rect) => res matches Ok(spec) && spec@ == rect,
            None => res == Err::<BitSpec, ParseError>(ParseError::InvalidSpec),
        },
{
    let chars = chars_of(token);
    let parts = split_chars(chars.as_slice(), ':');
    proof {
        assert(parts_view(parts@).len() == parts.len());
    }
    if parts.len() == 1 {
        assert(parts_view(parts@)[0] == parts[0]@);
        match range_from_chars(parts[0].as_slice()) {
            Some(bits) => Ok(BitSpec { cores: 0..num_cores as u32, bits }),
            None => Err(ParseError::InvalidSpec),
        }
    } else if parts.len() == 2 {
        assert(parts_view(parts@)[0] == parts[0]@);
        assert(parts_view(parts@)[1] == parts[1]@);
        match (range_from_chars(parts[0].as_slice()), range_from_chars(parts[1].as_slice())) {
            (Some(cores), Some(bits)) => Ok(BitSpec { cores, bits }),
            _ => Err(ParseError::InvalidSpec),
        }
    } else {
        Err(ParseError::InvalidSpec)
    }
}

/// Parses the bit specifications of a command line, in order. The list may
/// be empty. On failure the result is the index of the first token that is
/// not a specification.
pub fn parse_specs(tokens: &Vec<String>, num_cores: u16) -> (res: Result<Vec<BitSpec>, usize>)
    ensures
        match res {
            Ok(specs) => {
                &&& specs.len() == tokens.len()
                &&& forall|i: int|
                    0 <= i < tokens.len() ==> bit_spec_of(#[trigger] tokens[i]@, num_cores as nat)
                        == Some(specs[i]@)
            },
            Err(index) => {
                &&& index < tokens.len()
                &&& bit_spec_of(tokens[index as int]@, num_cores as nat) is None
                &&& forall|i: int|
                    0 <= i < index ==> bit_spec_of(#[trigger] tokens[i]@, num_cores as nat) is Some
            },
        },
{
    let mut specs: Vec<BitSpec> = Vec::new();
    let count = tokens.len();
    let mut index: usize = 0;
    while index < count
        invariant
            index <= count,
            count == tokens.len(),
            specs.len() == index,
            forall|i: int|
                0 <= i < index ==> bit_spec_of(#[trigger] tokens[i]@, num_cores as nat) == Some(
                    specs[i]@,
                ),
        decreases count - index,
    {
        match parse_spec(tokens[index].as_str(), num_cores) {
            Ok(spec) => {
                specs.push(spec);
            },
            Err(_) => {
                return Err(index);
            },
        }
        index += 1;
    }
    Ok(specs)
}

/// A single index `N` is the range `[N, N + 1)`.
pub proof fn lemma_range_of_index(s: Seq<char>)
    requires
        index_of(s) is Some,
    ensures
        range_of(s) == Some(Span { start: index_of(s).unwrap(), end: index_of(s).unwrap() + 1 }),
{
    lemma_digits_exclude(s, 10, '-');
    lemma_split_without_separator(s, '-');
}

/// Two indices with a dash between them, `N-M`, are the range `[N, M)`.
pub proof fn lemma_range_of_pair(first: Seq<char>, second: Seq<char>)
    requires
        index_of(first) is Some,
        index_of(second) is Some,
    ensures
        range_of(first.push('-') + second) == Some(
            Span { start: index_of(first).unwrap(), end: index_of(second).unwrap() },
        ),
{
    lemma_digits_exclude(first, 10, '-');
    lemma_digits_exclude(second, 10, '-');
    lemma_split_without_separator(first, '-');
    lemma_split_without_separator(second, '-');
    lemma_split_around_separator(first, second, '-');
    assert(seq![first] + seq![second] == seq![first, second]);
}

/// A range string holds decimal digits and dashes only.
pub proof fn lemma_range_chars(s: Seq<char>, i: int)
    requires
        range_of(s) is Some,
        0 <= i < s.len(),
    ensures
        s[i] == '-' || digit_value(s[i], 10) is Some,
{
    let parts = split(s, '-');
    lemma_split_join(s, '-');
    if parts.len() == 1 {
        assert(join(parts, '-') == parts[0]);
        assert(digit_value(parts[0][i], 10) is Some);
    } else {
        let first = parts[0];
        let second = parts[1];
        assert(parts.drop_last() == seq![first]);
        assert(join(seq![first], '-') == first);
        assert(s == first.push('-') + second);
        if i < first.len() {
            assert(digit_value(first[i], 10) is Some);
        } else if i > first.len() {
            assert(digit_value(second[i - first.len() - 1], 10) is Some);
        }
    }
}

/// A bit range alone selects its bits on all cores.
pub proof fn lemma_bit_spec_of_bits(s: Seq<char>, num_cores: nat)
    requires
        range_of(s) is Some,
    ensures
        bit_spec_of(s, num_cores) == Some(
            Rect { cores: Span { start: 0, end: num_cores }, bits: range_of(s).unwrap() },
        ),
{
    assert(!s.contains(':')) by {
        if s.contains(':') {
            let i = choose|i: int| 0 <= i < s.len() && s[i] == ':';
            lemma_range_chars(s, i);
        }
    }
    lemma_split_without_separator(s, ':');
}

/// A core range and a bit range with a colon between them, `cores:bits`,
/// select those bits on those cores.
pub proof fn lemma_bit_spec_of_pair(cores: Seq<char>, bits: Seq<char>, num_cores: nat)
    requires
        range_of(cores) is Some,
        range_of(bits) is Some,
    ensures
        bit_spec_of(cores.push(':') + bits, num_cores) == Some(
            Rect { cores: range_of(cores).unwrap(), bits: range_of(bits).unwrap() },
        ),
{
    assert(!cores.contains(':')) by {
        if cores.contains(':') {
            let i = choose|i: int| 0 <= i < cores.len() && cores[i] == ':';
            lemma_range_chars(cores, i);
        }
    }
    assert(!bits.contains(':')) by {
        if bits.contains(':') {
            let i = choose|i: int| 0 <= i < bits.len() && bits[i] == ':';
            lemma_range_chars(bits, i);
        }
    }
    lemma_split_without_separator(cores, ':');
    lemma_split_without_separator(bits, ':');
    lemma_split_around_separator(cores, bits, ':');
    assert(seq![cores] + seq![bits] == seq![cores, bits]);
}

} // verus!
