//! The 8-byte register value and the single-bit toggle.

use vstd::prelude::*;

verus! {

/// Number of bits in a register.
pub const REGISTER_BITS: u32 = 64;

/// Number of bytes that every register read or write transfers.
pub const REGISTER_BYTES: usize = 8;

/// Whether a transfer of `count` bytes moved a whole register. A shorter
/// transfer is an error, never partial data.
pub fn transfer_complete(count: usize) -> (complete: bool)
    ensures
        complete == (count == REGISTER_BYTES),
{
    count == REGISTER_BYTES
}

/// A register value: exactly eight bytes, byte 0 being the least significant.
#[derive(Clone, Copy, Debug, PartialEq, Eq)]
pub struct RegisterValue {
    pub bytes: [u8; 8],
}

impl View for RegisterValue {
    type V = Seq<u8>;

    /// The eight bytes, least significant first.
    open spec fn view(&self) -> Seq<u8> {
        self.bytes@
    }
}

/// Whether bit `k` (0 = least significant) of the byte `b` is set.
pub open spec fn byte_bit(b: u8, k: int) -> bool {
    (b >> (k as u8)) & 1u8 == 1u8
}

/// Whether bit `bit` of the bytes is set; bit `8 * i + k` is bit `k` of byte
/// `i`. A bit that the bytes do not have is not set.
pub open spec fn bit_of(bytes: Seq<u8>, bit: int) -> bool {
    0 <= bit < 8 * bytes.len() && byte_bit(bytes[bit / 8], bit % 8)
}

/// The bytes with exactly bit `bit` inverted: the byte that holds the bit is
/// combined by exclusive or with a mask of that one bit. Bytes that have no
/// such bit stay as they are.
pub open spec fn toggled(bytes: Seq<u8>, bit: int) -> Seq<u8> {
    if 0 <= bit < 8 * bytes.len() {
        bytes.update(bit / 8, bytes[bit / 8] ^ (1u8 << ((bit % 8) as u8)))
    } else {
        bytes
    }
}

impl RegisterValue {
    /// The value that a transfer of `bytes` carries. A transfer of any other
    /// length than [`REGISTER_BYTES`] carries none.
    pub fn from_slice(bytes: &[u8]) -> (out: Option<RegisterValue>)
        ensures
            out is Some <==> bytes@.len() == REGISTER_BYTES,
            out matches Some(value) ==> value@ == bytes@,
    {
        if !transfer_complete(bytes.len()) {
            return None;
        }
        let value = RegisterValue {
            bytes: [
                bytes[0],
                bytes[1],
                bytes[2],
                bytes[3],
                bytes[4],
                bytes[5],
                bytes[6],
                bytes[7],
            ],
        };
        assert(value@ =~= bytes@);
        Some(value)
    }

    /// The value as an unsigned number, byte 0 being the least significant.
    pub fn to_u64(&self) -> (number: u64)
        ensures
            number == number_of(self@),
    {
        let b = &self.bytes;
        let low = (b[0] as u64) | (b[1] as u64) << 8 | (b[2] as u64) << 16 | (b[3] as u64) << 24;
        let high = (b[4] as u64) << 32 | (b[5] as u64) << 40 | (b[6] as u64) << 48 | (b[7] as u64)
            << 56;
        low | high
    }

    /// Whether bit `bit` is set.
    pub fn bit_is_set(&self, bit: u8) -> (set: bool)
        ensures
            set == bit_of(self@, bit as int),
    {
        if bit >= 64 {
            return false;
        }
        let index: usize = (bit / 8) as usize;
        (self.bytes[index] >> (bit % 8)) & 1u8 == 1u8
    }

    /// Inverts bit `bit` and leaves the other 63 bits as they are. A register
    /// has no bit 64 or above: for such a `bit` the value stays as it is.
    pub fn toggle_bit(&self, bit: u8) -> (out: RegisterValue)
        ensures
            out@ == toggled(self@, bit as int),
            forall|other: int|
                0 <= other < 64 ==> #[trigger] bit_of(out@, other) == if other == bit {
                    !bit_of(self@, other)
                } else {
                    bit_of(self@, other)
                },
    {
        if bit >= 64 {
            return *self;
        }
        proof {
            assert forall|other: int| 0 <= other < 64 implies #[trigger] bit_of(
                toggled(self@, bit as int),
                other,
            ) == if other == bit {
                !bit_of(self@, other)
            } else {
                bit_of(self@, other)
            } by {
                if other == bit {
                    lemma_toggle_inverts_bit(self@, bit as int);
                } else {
                    lemma_toggle_keeps_other_bits(self@, bit as int, other);
                }
            }
        }
        let mut bytes = self.bytes;
        let idx: usize = (bit / 8) as usize;
        let mask: u8 = 1u8 << (bit % 8);
        bytes[idx] = bytes[idx] ^ mask;
        RegisterValue { bytes }
    }
}

/// A register value is its eight bytes: values with the same bytes are the
/// same value.
pub proof fn lemma_value_is_its_bytes(a: RegisterValue, b: RegisterValue)
    requires
        a@ == b@,
    ensures
        a == b,
{
    assert(a.bytes =~= b.bytes);
}

/// Toggling a bit inverts that bit.
pub proof fn lemma_toggle_inverts_bit(bytes: Seq<u8>, bit: int)
    requires
        0 <= bit < 8 * bytes.len(),
    ensures
        bit_of(toggled(bytes, bit), bit) == !bit_of(bytes, bit),
{
    let x = bytes[bit / 8];
    let k = (bit % 8) as u8;
    assert((((x ^ (1u8 << k)) >> k) & 1u8 == 1u8) == !((x >> k) & 1u8 == 1u8)) by (bit_vector)
        requires
            k < 8,
    ;
}

/// Toggling a bit leaves every other bit of the register as it was.
pub proof fn lemma_toggle_keeps_other_bits(bytes: Seq<u8>, bit: int, other: int)
    requires
        0 <= bit < 8 * bytes.len(),
        0 <= other < 8 * bytes.len(),
        other != bit,
    ensures
        bit_of(toggled(bytes, bit), other) == bit_of(bytes, other),
{
    if other / 8 == bit / 8 {
        let x = bytes[bit / 8];
        let k = (bit % 8) as u8;
        let m = (other % 8) as u8;
        assert((((x ^ (1u8 << k)) >> m) & 1u8 == 1u8) == ((x >> m) & 1u8 == 1u8)) by (bit_vector)
            requires
                k < 8,
                m < 8,
                k != m,
        ;
    }
}

/// Toggling the same bit twice gives back the bytes as they were.
pub proof fn lemma_toggle_twice(bytes: Seq<u8>, bit: int)
    ensures
        toggled(toggled(bytes, bit), bit) == bytes,
{
    if 0 <= bit < 8 * bytes.len() {
        let x = bytes[bit / 8];
        let k = (bit % 8) as u8;
        assert((x ^ (1u8 << k)) ^ (1u8 << k) == x) by (bit_vector);
        assert(toggled(toggled(bytes, bit), bit) =~= bytes);
    }
}

/// Two toggles give the same bytes in either order.
pub proof fn lemma_toggle_commutes(bytes: Seq<u8>, first: int, second: int)
    ensures
        toggled(toggled(bytes, first), second) == toggled(toggled(bytes, second), first),
{
    if 0 <= first < 8 * bytes.len() && 0 <= second < 8 * bytes.len() {
        let x = bytes[first / 8];
        let a = (first % 8) as u8;
        let b = (second % 8) as u8;
        assert((x ^ (1u8 << a)) ^ (1u8 << b) == (x ^ (1u8 << b)) ^ (1u8 << a)) by (bit_vector);
        assert(toggled(toggled(bytes, first), second) =~= toggled(
            toggled(bytes, second),
            first,
        ));
    }
}

/// Two bytes whose eight bits agree are the same byte.
pub proof fn lemma_byte_bits_determine(x: u8, y: u8)
    requires
        forall|k: int| 0 <= k < 8 ==> byte_bit(x, k) == byte_bit(y, k),
    ensures
        x == y,
{
    assert(byte_bit(x, 0) == byte_bit(y, 0));
    assert(byte_bit(x, 1) == byte_bit(y, 1));
    assert(byte_bit(x, 2) == byte_bit(y, 2));
    assert(byte_bit(x, 3) == byte_bit(y, 3));
    assert(byte_bit(x, 4) == byte_bit(y, 4));
    assert(byte_bit(x, 5) == byte_bit(y, 5));
    assert(byte_bit(x, 6) == byte_bit(y, 6));
    assert(byte_bit(x, 7) == byte_bit(y, 7));
    assert(x == y) by (bit_vector)
        requires
            ((x >> 0u8) & 1u8 == 1u8) == ((y >> 0u8) & 1u8 == 1u8),
            ((x >> 1u8) & 1u8 == 1u8) == ((y >> 1u8) & 1u8 == 1u8),
            ((x >> 2u8) & 1u8 == 1u8) == ((y >> 2u8) & 1u8 == 1u8),
            ((x >> 3u8) & 1u8 == 1u8) == ((y >> 3u8) & 1u8 == 1u8),
            ((x >> 4u8) & 1u8 == 1u8) == ((y >> 4u8) & 1u8 == 1u8),
            ((x >> 5u8) & 1u8 == 1u8) == ((y >> 5u8) & 1u8 == 1u8),
            ((x >> 6u8) & 1u8 == 1u8) == ((y >> 6u8) & 1u8 == 1u8),
            ((x >> 7u8) & 1u8 == 1u8) == ((y >> 7u8) & 1u8 == 1u8),
    ;
}

/// Byte strings of one length whose bits all agree are the same: a register
/// value is no more than its bits.
pub proof fn lemma_bits_determine(a: Seq<u8>, b: Seq<u8>)
    requires
        a.len() == b.len(),
        forall|bit: int| 0 <= bit < 8 * a.len() ==> bit_of(a, bit) == bit_of(b, bit),
    ensures
        a == b,
{
    assert forall|i: int| 0 <= i < a.len() implies a[i] == b[i] by {
        assert forall|k: int| 0 <= k < 8 implies byte_bit(a[i], k) == byte_bit(b[i], k) by {
            let bit = 8 * i + k;
            assert(bit_of(a, bit) == bit_of(b, bit));
        }
        lemma_byte_bits_determine(a[i], b[i]);
    }
    assert(a =~= b);
}

/// The unsigned number with the given bytes, `b0` being the least significant.
pub open spec fn number_from(
    b0: u8,
    b1: u8,
    b2: u8,
    b3: u8,
    b4: u8,
    b5: u8,
    b6: u8,
    b7: u8,
) -> u64 {
    let low = (b0 as u64) | (b1 as u64) << 8 | (b2 as u64) << 16 | (b3 as u64) << 24;
    let high = (b4 as u64) << 32 | (b5 as u64) << 40 | (b6 as u64) << 48 | (b7 as u64) << 56;
    low | high
}

/// The unsigned number that eight bytes stand for, byte 0 being the least
/// significant.
pub open spec fn number_of(bytes: Seq<u8>) -> u64
    recommends
        bytes.len() == 8,
{
    number_from(
        bytes[0],
        bytes[1],
        bytes[2],
        bytes[3],
        bytes[4],
        bytes[5],
        bytes[6],
        bytes[7],
    )
}

/// Toggling bit `bit` of a register is the exclusive or of its number with
/// the mask that has only that bit set.
pub proof fn lemma_toggle_is_xor(bytes: Seq<u8>, bit: int)
    requires
        bytes.len() == 8,
        0 <= bit < 64,
    ensures
        number_of(toggled(bytes, bit)) == number_of(bytes) ^ (1u64 << (bit as u64)),
{
    let b0 = bytes[0];
    let b1 = bytes[1];
    let b2 = bytes[2];
    let b3 = bytes[3];
    let b4 = bytes[4];
    let b5 = bytes[5];
    let b6 = bytes[6];
    let b7 = bytes[7];
    let k = (bit % 8) as u8;
    let m = 1u8 << k;
    let n = bit as u64;
    let whole = number_from(b0, b1, b2, b3, b4, b5, b6, b7);
    if bit / 8 == 0 {
        assert(number_from(b0 ^ m, b1, b2, b3, b4, b5, b6, b7) == whole ^ (1u64 << n)) by (bit_vector)
            requires
                whole == number_from(b0, b1, b2, b3, b4, b5, b6, b7),
                m == 1u8 << k,
                k < 8,
                n == k as u64,
        ;
    } else if bit / 8 == 1 {
        assert(number_from(b0, b1 ^ m, b2, b3, b4, b5, b6, b7) == whole ^ (1u64 << n)) by (bit_vector)
            requires
                whole == number_from(b0, b1, b2, b3, b4, b5, b6, b7),
                m == 1u8 << k,
                k < 8,
                n == 8 + k as u64,
        ;
    } else if bit / 8 == 2 {
        assert(number_from(b0, b1, b2 ^ m, b3, b4, b5, b6, b7) == whole ^ (1u64 << n)) by (bit_vector)
            requires
                whole == number_from(b0, b1, b2, b3, b4, b5, b6, b7),
                m == 1u8 << k,
                k < 8,
                n == 16 + k as u64,
        ;
    } else if bit / 8 == 3 {
        assert(number_from(b0, b1, b2, b3 ^ m, b4, b5, b6, b7) == whole ^ (1u64 << n)) by (bit_vector)
            requires
                whole == number_from(b0, b1, b2, b3, b4, b5, b6, b7),
                m == 1u8 << k,
                k < 8,
                n == 24 + k as u64,
        ;
    } else if bit / 8 == 4 {
        assert(number_from(b0, b1, b2, b3, b4 ^ m, b5, b6, b7) == whole ^ (1u64 << n)) by (bit_vector)
            requires
                whole == number_from(b0, b1, b2, b3, b4, b5, b6, b7),
                m == 1u8 << k,
                k < 8,
                n == 32 + k as u64,
        ;
    } else if bit / 8 == 5 {
        assert(number_from(b0, b1, b2, b3, b4, b5 ^ m, b6, b7) == whole ^ (1u64 << n)) by (bit_vector)
            requires
                whole == number_from(b0, b1, b2, b3, b4, b5, b6, b7),
                m == 1u8 << k,
                k < 8,
                n == 40 + k as u64,
        ;
    } else if bit / 8 == 6 {
        assert(number_from(b0, b1, b2, b3, b4, b5, b6 ^ m, b7) == whole ^ (1u64 << n)) by (bit_vector)
            requires
                whole == number_from(b0, b1, b2, b3, b4, b5, b6, b7),
                m == 1u8 << k,
                k < 8,
                n == 48 + k as u64,
        ;
    } else {
        assert(number_from(b0, b1, b2, b3, b4, b5, b6, b7 ^ m) == whole ^ (1u64 << n)) by (bit_vector)
            requires
                whole == number_from(b0, b1, b2, b3, b4, b5, b6, b7),
                m == 1u8 << k,
                k < 8,
                n == 56 + k as u64,
        ;
    }
}

} // verus!
