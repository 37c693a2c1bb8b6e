//! Rendering of register values as grouped binary and hexadecimal text.

use crate::register::{byte_bit, RegisterValue};
use crate::text::{digit_value, digits_value, parse_unsigned};
use vstd::prelude::*;
use vstd::string::StringExecFns;

verus! {

/// The sixteen digit characters, in the order of their values.
pub open spec fn digit_chars() -> Seq<char> {
    seq!['0', '1', '2', '3', '4', '5', '6', '7', '8', '9', 'a', 'b', 'c', 'd', 'e', 'f']
}

/// The character for the digit `d`, lower case above nine.
pub open spec fn digit_char(d: nat) -> char
    recommends
        d < 16,
{
    digit_chars()[d as int]
}

/// The eight binary digits of `b`, most significant first.
pub open spec fn binary_digits(b: u8) -> Seq<char> {
    Seq::new(
        8,
        |k: int|
            if byte_bit(b, 7 - k) {
                '1'
            } else {
                '0'
            },
    )
}

/// The two hexadecimal digits of `b`, most significant first.
pub open spec fn hex_digits(b: u8) -> Seq<char> {
    seq![digit_char((b / 16) as nat), digit_char((b % 16) as nat)]
}

/// The text for the digit `d`.
fn digit_text(d: u8) -> (t: &'static str)
    requires
        d < 16,
    ensures
        t@ == seq![digit_char(d as nat)],
{
    proof {
        reveal_strlit("0");
        reveal_strlit("1");
        reveal_strlit("2");
        reveal_strlit("3");
        reveal_strlit("4");
        reveal_strlit("5");
        reveal_strlit("6");
        reveal_strlit("7");
        reveal_strlit("8");
        reveal_strlit("9");
        reveal_strlit("a");
        reveal_strlit("b");
        reveal_strlit("c");
        reveal_strlit("d");
        reveal_strlit("e");
        reveal_strlit("f");
    }
    let t = match d {
        0 => "0",
        1 => "1",
        2 => "2",
        3 => "3",
        4 => "4",
        5 => "5",
        6 => "6",
        7 => "7",
        8 => "8",
        9 => "9",
        10 => "a",
        11 => "b",
        12 => "c",
        13 => "d",
        14 => "e",
        _ => "f",
    };
    assert(t@ =~= seq![digit_char(d as nat)]);
    t
}

/// Appends the eight binary digits of `b` to `out`.
fn push_binary(out: &mut String, b: u8)
    ensures
        final(out)@ == old(out)@ + binary_digits(b),
{
    let mut k: u8 = 0;
    while k < 8
        invariant
            k <= 8,
            out@ == old(out)@ + binary_digits(b).take(k as int),
        decreases 8 - k,
    {
        let shift: u8 = 7 - k;
        let bit: u8 = if (b >> shift) & 1u8 == 1u8 {
            1
        } else {
            0
        };
        out.append(digit_text(bit));
        proof {
            assert(binary_digits(b).take(k + 1) == binary_digits(b).take(k as int).push(
                binary_digits(b)[k as int],
            ));
        }
        k += 1;
    }
    proof {
        assert(binary_digits(b).take(8) == binary_digits(b));
    }
}

/// Appends the two hexadecimal digits of `b` to `out`.
fn push_hex(out: &mut String, b: u8)
    ensures
        final(out)@ == old(out)@ + hex_digits(b),
{
    out.append(digit_text(b / 16));
    out.append(digit_text(b % 16));
}

/// The layout of a dump, given the digits of each byte (`cells[i]` for byte
/// `i`): bytes 7 down to 0, each followed by one space, and two more spaces
/// in front of byte 3, between the upper and the lower half of the register.
pub open spec fn dump(cells: Seq<Seq<char>>) -> Seq<char>
    recommends
        cells.len() == 8,
{
    cells[7].push(' ') + cells[6].push(' ') + cells[5].push(' ') + cells[4].push(' ')
        + seq![' ', ' '] + cells[3].push(' ') + cells[2].push(' ') + cells[1].push(' ')
        + cells[0].push(' ')
}

/// The binary form of a register value.
pub open spec fn binary_dump(bytes: Seq<u8>) -> Seq<char> {
    dump(Seq::new(8, |i: int| binary_digits(bytes[i])))
}

/// The hexadecimal form of a register value.
pub open spec fn hex_dump(bytes: Seq<u8>) -> Seq<char> {
    dump(Seq::new(8, |i: int| hex_digits(bytes[i])))
}

/// The six spaces between the binary and the hexadecimal form.
pub open spec fn form_gap() -> Seq<char> {
    seq![' ', ' ', ' ', ' ', ' ', ' ']
}

/// Both forms of a register value, the binary one first.
pub open spec fn register_text(bytes: Seq<u8>) -> Seq<char> {
    binary_dump(bytes) + form_gap() + hex_dump(bytes)
}

/// What stands in front of the byte at `index`: two spaces for byte 3.
spec fn group_gap(index: int) -> Seq<char> {
    if index == 3 {
        seq![' ', ' ']
    } else {
        Seq::<char>::empty()
    }
}

/// The part of a dump that renders the bytes below `count`.
spec fn dump_below(cells: Seq<Seq<char>>, count: int) -> Seq<char>
    decreases count,
{
    if count <= 0 {
        Seq::<char>::empty()
    } else {
        group_gap(count - 1) + cells[count - 1].push(' ') + dump_below(cells, count - 1)
    }
}

/// The dump is the part that renders all eight bytes.
proof fn lemma_dump_below_all(cells: Seq<Seq<char>>)
    ensures
        dump_below(cells, 8) == dump(cells),
{
    reveal_with_fuel(dump_below, 9);
}

/// Appends the binary form of `value` to `out`.
fn push_binary_dump(out: &mut String, value: &RegisterValue)
    ensures
        final(out)@ == old(out)@ + binary_dump(value@),
{
    let ghost cells = Seq::new(8, |i: int| binary_digits(value@[i]));
    proof {
        lemma_dump_below_all(cells);
    }
    let mut count: usize = 8;
    while count > 0
        invariant
            count <= 8,
            cells == Seq::new(8, |i: int| binary_digits(value@[i])),
            out@ + dump_below(cells, count as int) == old(out)@ + dump(cells),
        decreases count,
    {
        let ghost before = out@;
        let index = count - 1;
        if index == 3 {
            proof {
                reveal_strlit("  ");
            }
            out.append("  ");
        }
        assert(out@ == before + group_gap(index as int));
        push_binary(out, value.bytes[index]);
        proof {
            reveal_strlit(" ");
        }
        out.append(" ");
        assert(out@ == before + (group_gap(index as int) + cells[index as int].push(' ')));
        assert(out@ + dump_below(cells, index as int) == before + dump_below(
            cells,
            count as int,
        ));
        count = index;
    }
    assert(out@ + dump_below(cells, 0) == out@);
}

/// Appends the hexadecimal form of `value` to `out`.
fn push_hex_dump(out: &mut String, value: &RegisterValue)
    ensures
        final(out)@ == old(out)@ + hex_dump(value@),
{
    let ghost cells = Seq::new(8, |i: int| hex_digits(value@[i]));
    proof {
        lemma_dump_below_all(cells);
    }
    let mut count: usize = 8;
    while count > 0
        invariant
            count <= 8,
            cells == Seq::new(8, |i: int| hex_digits(value@[i])),
            out@ + dump_below(cells, count as int) == old(out)@ + dump(cells),
        decreases count,
    {
        let ghost before = out@;
        let index = count - 1;
        if index == 3 {
            proof {
                reveal_strlit("  ");
            }
            out.append("  ");
        }
        assert(out@ == before + group_gap(index as int));
        push_hex(out, value.bytes[index]);
        proof {
            reveal_strlit(" ");
        }
        out.append(" ");
        assert(out@ == before + (group_gap(index as int) + cells[index as int].push(' ')));
        assert(out@ + dump_below(cells, index as int) == before + dump_below(
            cells,
            count as int,
        ));
        count = index;
    }
    assert(out@ + dump_below(cells, 0) == out@);
}

/// Renders `value` in binary: bytes 7 down to 0, each as eight digits and a
/// space, with two more spaces in front of byte 3.
pub fn format_binary(value: &RegisterValue) -> (text: String)
    ensures
        text@ == binary_dump(value@),
{
    let mut text = String::new();
    push_binary_dump(&mut text, value);
    text
}

/// Renders `value` in hexadecimal: bytes 7 down to 0, each as two lower-case
/// digits and a space, with two more spaces in front of byte 3.
pub fn format_hex(value: &RegisterValue) -> (text: String)
    ensures
        text@ == hex_dump(value@),
{
    let mut text = String::new();
    push_hex_dump(&mut text, value);
    text
}

/// Renders `value` in both forms, six spaces apart.
pub fn format_msr_val(value: &RegisterValue) -> (text: String)
    ensures
        text@ == register_text(value@),
{
    let mut text = String::new();
    push_binary_dump(&mut text, value);
    proof {
        reveal_strlit("      ");
    }
    text.append("      ");
    assert(text@ == binary_dump(value@) + form_gap());
    push_hex_dump(&mut text, value);
    text
}

/// The decimal digits of `n`, without leading zeros.
pub open spec fn decimal(n: nat) -> Seq<char>
    decreases n,
{
    if n < 10 {
        seq![digit_char(n)]
    } else {
        decimal(n / 10).push(digit_char(n % 10))
    }
}

/// The output line for one core: its index, a colon and a space, then both
/// forms of its register value.
pub open spec fn line_text(core: nat, bytes: Seq<u8>) -> Seq<char> {
    decimal(core) + seq![':', ' '] + register_text(bytes)
}

/// The path of the register device of one core.
pub open spec fn node_path(core: nat) -> Seq<char> {
    "/dev/cpu/"@ + decimal(core) + "/msr"@
}

/// Appends the decimal digits of `n` to `out`.
fn push_decimal(out: &mut String, n: u16)
    ensures
        final(out)@ == old(out)@ + decimal(n as nat),
    decreases n,
{
    if n >= 10 {
        push_decimal(out, n / 10);
    }
    out.append(digit_text((n % 10) as u8));
}

/// Renders the output line of core `core`, whose register holds `value`. The
/// line has no line break at its end.
pub fn format_msr_line(core: u16, value: &RegisterValue) -> (text: String)
    ensures
        text@ == line_text(core as nat, value@),
{
    let mut text = String::new();
    push_decimal(&mut text, core);
    proof {
        reveal_strlit(": ");
    }
    text.append(": ");
    assert(text@ == decimal(core as nat) + seq![':', ' ']);
    push_binary_dump(&mut text, value);
    proof {
        reveal_strlit("      ");
    }
    text.append("      ");
    assert(text@ == decimal(core as nat) + seq![':', ' '] + (binary_dump(value@) + form_gap()));
    push_hex_dump(&mut text, value);
    text
}

/// The path of the register device of core `core`.
pub fn msr_node_path(core: u16) -> (path: String)
    ensures
        path@ == node_path(core as nat),
{
    let mut path = String::new();
    path.append("/dev/cpu/");
    push_decimal(&mut path, core);
    path.append("/msr");
    path
}

/// The binary form has 74 characters, the hexadecimal form 26.
pub proof fn lemma_dump_lengths(bytes: Seq<u8>)
    ensures
        binary_dump(bytes).len() == 74,
        hex_dump(bytes).len() == 26,
{
}

/// The character that is written for a digit is read back as that digit, in
/// every base that has the digit.
pub proof fn lemma_digit_char_value(d: nat, radix: nat)
    requires
        d < radix <= 16,
    ensures
        digit_value(digit_char(d), radix) == Some(d),
{
}

/// The decimal digits that are written for a number are read back as that
/// number.
pub proof fn lemma_decimal_parses(n: nat, max: nat)
    requires
        n <= max,
    ensures
        parse_unsigned(decimal(n), 10, max) == Some(n),
    decreases n,
{
    let s = decimal(n);
    if n < 10 {
        lemma_digit_char_value(n, 10);
        assert(s.drop_last() == Seq::<char>::empty());
        assert(digits_value(s.drop_last(), 10) == 0);
    } else {
        lemma_decimal_parses(n / 10, max);
        lemma_digit_char_value(n % 10, 10);
        let head = decimal(n / 10);
        assert(s.drop_last() == head);
        assert forall|i: int| 0 <= i < s.len() implies (#[trigger] digit_value(s[i], 10))
            is Some by {
            if i < head.len() {
                assert(s[i] == head[i]);
            }
        }
    }
}

} // verus!
