//! Character-level building blocks of the parsers: digits, unsigned numbers
//! and splitting on a separator.

use vstd::prelude::*;

verus! {

/// The value of `c` as a digit in base `radix`, if it is one. The digits are
/// `0`-`9`, then `a`-`f` or `A`-`F` for ten to fifteen.
pub open spec fn digit_value(c: char, radix: nat) -> Option<nat> {
    let v: nat = if '0' <= c && c <= '9' {
        (c as u32 - '0' as u32) as nat
    } else if 'a' <= c && c <= 'f' {
        (c as u32 - 'a' as u32 + 10) as nat
    } else if 'A' <= c && c <= 'F' {
        (c as u32 - 'A' as u32 + 10) as nat
    } else {
        radix
    };
    if v < radix {
        Some(v)
    } else {
        None
    }
}

/// Whether every character of `s` is a digit in base `radix`.
pub open spec fn all_digits(s: Seq<char>, radix: nat) -> bool {
    forall|i: int| 0 <= i < s.len() ==> (#[trigger] digit_value(s[i], radix)) is Some
}

/// The number that the digits `s` denote in base `radix`, most significant
/// digit first.
pub open spec fn digits_value(s: Seq<char>, radix: nat) -> nat
    decreases s.len(),
{
    if s.len() == 0 {
        0
    } else {
        digits_value(s.drop_last(), radix) * radix + digit_value(s.last(), radix).unwrap()
    }
}

/// What `s` denotes as an unsigned number in base `radix` that is at most
/// `max`: one or more digits, nothing else, no sign.
pub open spec fn parse_unsigned(s: Seq<char>, radix: nat, max: nat) -> Option<nat> {
    if s.len() > 0 && all_digits(s, radix) && digits_value(s, radix) <= max {
        Some(digits_value(s, radix))
    } else {
        None
    }
}

/// A number never gets smaller when digits are appended to it.
pub proof fn lemma_digits_value_grows(s: Seq<char>, n: int, radix: nat)
    requires
        radix >= 1,
        0 <= n <= s.len(),
    ensures
        digits_value(s.take(n), radix) <= digits_value(s, radix),
    decreases s.len() - n,
{
    if n == s.len() {
        assert(s.take(n) == s);
    } else {
        lemma_digits_value_grows(s, n + 1, radix);
        let t = s.take(n + 1);
        assert(t.drop_last() == s.take(n));
        let v = digits_value(s.take(n), radix);
        assert(v * radix >= v) by (nonlinear_arith)
            requires
                radix >= 1,
        ;
    }
}

/// The characters of `s`, in order.
pub fn chars_of(s: &str) -> (out: Vec<char>)
    ensures
        out@ == s@,
{
    let mut out: Vec<char> = Vec::new();
    for c in it: s.chars()
        invariant
            out@ == it.seq().take(it.index() as int),
            it.seq() == s@,
    {
        out.push(c);
    }
    out
}

/// The value of one digit in base `radix`.
pub fn digit_of(c: char, radix: u32) -> (d: Option<u32>)
    ensures
        match digit_value(c, radix as nat) {
            Some(v) => d == Some(v as u32),
            None => d is None,
        },
{
    let v: u32 = if '0' <= c && c <= '9' {
        c as u32 - '0' as u32
    } else if 'a' <= c && c <= 'f' {
        c as u32 - 'a' as u32 + 10
    } else if 'A' <= c && c <= 'F' {
        c as u32 - 'A' as u32 + 10
    } else {
        radix
    };
    if v < radix {
        Some(v)
    } else {
        None
    }
}

/// Reads `chars` as an unsigned number in base `radix` that is at most `max`.
pub fn parse_number(chars: &[char], radix: u32, max: u64) -> (out: Option<u64>)
    ensures
        match parse_unsigned(chars@, radix as nat, max as nat) {
            Some(v) => out == Some(v as u64),
            None => out is None,
        },
{
    let ghost s = chars@;
    let n = chars.len();
    if n == 0 {
        return None;
    }
    let mut acc: u64 = 0;
    let mut i: usize = 0;
    while i < n
        invariant
            i <= n,
            n == chars.len(),
            s == chars@,
            all_digits(s.take(i as int), radix as nat),
            acc == digits_value(s.take(i as int), radix as nat),
            acc <= max,
        decreases n - i,
    {
        let ghost before = s.take(i as int);
        let ghost now = s.take(i + 1);
        proof {
            assert(now.drop_last() == before);
            assert(now.last() == s[i as int]);
        }
        let d = match digit_of(chars[i], radix) {
            Some(d) => d,
            None => {
                return None;
            },
        };
        let next = match acc.checked_mul(radix as u64) {
            Some(m) => m.checked_add(d as u64),
            None => None,
        };
        proof {
            assert forall|k: int| 0 <= k < now.len() implies (#[trigger] digit_value(
                now[k],
                radix as nat,
            )) is Some by {
                if k < before.len() {
                    assert(now[k] == before[k]);
                }
            }
            assert(digits_value(now, radix as nat) == acc * radix + d);
            lemma_digits_value_grows(s, i + 1, radix as nat);
        }
        match next {
            Some(v) if v <= max => {
                acc = v;
            },
            _ => {
                return None;
            },
        }
        i += 1;
    }
    proof {
        assert(s.take(n as int) == s);
    }
    Some(acc)
}

/// The parts of `s` between occurrences of `sep`, read from left to right: each
/// `sep` closes the current part and opens a new one, and any other character
/// is added to the end of the current part. A string without `sep` is one
/// part, the empty string included.
pub open spec fn split(s: Seq<char>, sep: char) -> Seq<Seq<char>>
    decreases s.len(),
{
    if s.len() == 0 {
        seq![Seq::<char>::empty()]
    } else {
        let before = split(s.drop_last(), sep);
        if s.last() == sep {
            before.push(Seq::<char>::empty())
        } else {
            before.update(before.len() - 1, before.last().push(s.last()))
        }
    }
}

/// The parts as sequences of characters.
pub open spec fn parts_view(parts: Seq<Vec<char>>) -> Seq<Seq<char>> {
    Seq::new(parts.len(), |i: int| parts[i]@)
}

/// There is always at least one part.
pub proof fn lemma_split_nonempty(s: Seq<char>, sep: char)
    ensures
        split(s, sep).len() >= 1,
    decreases s.len(),
{
    if s.len() > 0 {
        lemma_split_nonempty(s.drop_last(), sep);
    }
}

/// Splits `chars` on every occurrence of `sep`.
pub fn split_chars(chars: &[char], sep: char) -> (parts: Vec<Vec<char>>)
    ensures
        parts_view(parts@) == split(chars@, sep),
{
    let mut parts: Vec<Vec<char>> = Vec::new();
    let mut current: Vec<char> = Vec::new();
    let n = chars.len();
    let mut i: usize = 0;
    while i < n
        invariant
            i <= n,
            n == chars.len(),
            parts_view(parts@).push(current@) == split(chars@.take(i as int), sep),
        decreases n - i,
    {
        let ghost done = chars@.take(i as int);
        let ghost now = chars@.take(i + 1);
        let ghost closed = parts_view(parts@);
        proof {
            assert(now.drop_last() == done);
            assert(now.last() == chars@[i as int]);
        }
        let c = chars[i];
        if c == sep {
            let ghost full = current@;
            parts.push(current);
            current = Vec::new();
            proof {
                assert(parts_view(parts@) == closed.push(full));
            }
        } else {
            let ghost short = current@;
            current.push(c);
            proof {
                assert(closed.push(current@) == closed.push(short).update(
                    closed.len() as int,
                    short.push(c),
                ));
            }
        }
        i += 1;
    }
    proof {
        assert(chars@.take(n as int) == chars@);
    }
    let ghost closed = parts_view(parts@);
    let ghost last = current@;
    parts.push(current);
    proof {
        assert(parts_view(parts@) == closed.push(last));
    }
    parts
}

/// The parts with `sep` put back between them.
pub open spec fn join(parts: Seq<Seq<char>>, sep: char) -> Seq<char>
    decreases parts.len(),
{
    if parts.len() == 0 {
        Seq::<char>::empty()
    } else if parts.len() == 1 {
        parts[0]
    } else {
        join(parts.drop_last(), sep).push(sep) + parts.last()
    }
}

/// Splitting loses nothing: the parts joined by the separator are the string
/// that was split.
pub proof fn lemma_split_join(s: Seq<char>, sep: char)
    ensures
        join(split(s, sep), sep) == s,
    decreases s.len(),
{
    let parts = split(s, sep);
    if s.len() == 0 {
        assert(parts[0] == s);
    } else {
        let before = split(s.drop_last(), sep);
        lemma_split_join(s.drop_last(), sep);
        lemma_split_nonempty(s.drop_last(), sep);
        if s.last() == sep {
            assert(parts.drop_last() == before);
            assert(join(before, sep).push(sep) + Seq::<char>::empty() == s);
        } else if before.len() == 1 {
            assert(parts[0] == before[0].push(s.last()));
            assert(s.drop_last().push(s.last()) == s);
        } else {
            let front = join(before.drop_last(), sep).push(sep);
            assert(parts.drop_last() == before.drop_last());
            assert(front + before.last().push(s.last()) == (front + before.last()).push(s.last()));
            assert(s.drop_last().push(s.last()) == s);
        }
    }
}

/// No part holds the separator.
pub proof fn lemma_split_parts_clean(s: Seq<char>, sep: char, i: int, j: int)
    requires
        0 <= i < split(s, sep).len(),
        0 <= j < split(s, sep)[i].len(),
    ensures
        split(s, sep)[i][j] != sep,
    decreases s.len(),
{
    if s.len() > 0 {
        let before = split(s.drop_last(), sep);
        lemma_split_nonempty(s.drop_last(), sep);
        if i < before.len() && j < before[i].len() {
            lemma_split_parts_clean(s.drop_last(), sep, i, j);
        }
    }
}

/// A string without the separator is one part, itself.
pub proof fn lemma_split_without_separator(s: Seq<char>, sep: char)
    requires
        !s.contains(sep),
    ensures
        split(s, sep) == seq![s],
    decreases s.len(),
{
    if s.len() == 0 {
        assert(s == Seq::<char>::empty());
    } else {
        let head = s.drop_last();
        assert(!head.contains(sep)) by {
            if head.contains(sep) {
                let i = choose|i: int| 0 <= i < head.len() && head[i] == sep;
                assert(s[i] == sep);
            }
        }
        lemma_split_without_separator(head, sep);
        assert(s[s.len() - 1] != sep);
        assert(head.push(s.last()) == s);
        assert(split(s, sep) == seq![s]);
    }
}

/// A string with the separator in it is more than one part.
pub proof fn lemma_split_with_separator(s: Seq<char>, sep: char)
    requires
        s.contains(sep),
    ensures
        split(s, sep).len() >= 2,
    decreases s.len(),
{
    if s.len() > 0 {
        let head = s.drop_last();
        lemma_split_nonempty(head, sep);
        if s.last() != sep {
            let i = choose|i: int| 0 <= i < s.len() && s[i] == sep;
            assert(head[i] == sep);
            lemma_split_with_separator(head, sep);
        }
    }
}

/// Splitting what stands before a separator and what stands behind it gives
/// the parts of the whole.
pub proof fn lemma_split_around_separator(before: Seq<char>, behind: Seq<char>, sep: char)
    ensures
        split(before.push(sep) + behind, sep) == split(before, sep) + split(behind, sep),
    decreases behind.len(),
{
    let whole = before.push(sep) + behind;
    if behind.len() == 0 {
        assert(whole == before.push(sep));
        assert(whole.drop_last() == before);
        assert(split(before, sep).push(Seq::<char>::empty()) == split(before, sep) + split(
            behind,
            sep,
        ));
    } else {
        let shorter = behind.drop_last();
        lemma_split_around_separator(before, shorter, sep);
        lemma_split_nonempty(shorter, sep);
        assert(whole.drop_last() == before.push(sep) + shorter);
        assert(whole.last() == behind.last());
        let left = split(before, sep);
        let right = split(shorter, sep);
        if behind.last() == sep {
            assert((left + right).push(Seq::<char>::empty()) == left + right.push(
                Seq::<char>::empty(),
            ));
        } else {
            let grown = right.last().push(behind.last());
            assert((left + right).update((left + right).len() - 1, grown) == left + right.update(
                right.len() - 1,
                grown,
            ));
        }
    }
}

/// A string of digits holds no character that is not a digit.
pub proof fn lemma_digits_exclude(s: Seq<char>, radix: nat, c: char)
    requires
        all_digits(s, radix),
        digit_value(c, radix) is None,
    ensures
        !s.contains(c),
{
    if s.contains(c) {
        let i = choose|i: int| 0 <= i < s.len() && s[i] == c;
        assert(digit_value(s[i], radix) is Some);
    }
}

/// Splitting is the inverse of joining: parts that do not hold the separator
/// are what their joined string splits into.
pub proof fn lemma_split_of_join(parts: Seq<Seq<char>>, sep: char)
    requires
        parts.len() >= 1,
        forall|i: int| 0 <= i < parts.len() ==> !(#[trigger] parts[i]).contains(sep),
    ensures
        split(join(parts, sep), sep) == parts,
    decreases parts.len(),
{
    if parts.len() == 1 {
        lemma_split_without_separator(parts[0], sep);
        assert(seq![parts[0]] == parts);
    } else {
        let head = parts.drop_last();
        assert forall|i: int| 0 <= i < head.len() implies !(#[trigger] head[i]).contains(sep) by {
            assert(head[i] == parts[i]);
        }
        lemma_split_of_join(head, sep);
        lemma_split_without_separator(parts.last(), sep);
        lemma_split_around_separator(join(head, sep), parts.last(), sep);
        assert(head + seq![parts.last()] == parts);
    }
}

} // verus!
