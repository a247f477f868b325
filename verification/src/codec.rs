//! The byte layout of the three files: 32-bit signed values in the hash
//! database and in the cache, 16-bit unsigned values in the output table.
//!
//! The files hold values in the byte order of the machine that wrote them, so
//! every function here takes the byte order as an argument.

use vstd::prelude::*;
use vstd::slice::slice_subrange;

verus! {

/// The order in which the bytes of a value are laid out.
#[derive(Debug, Clone, Copy, PartialEq, Eq, Structural)]
pub enum Endian {
    /// Least significant byte first.
    Little,
    /// Most significant byte first.
    Big,
}

/// The number of bytes of a stored hash value or cache entry.
pub const ENTRY_BYTES: usize = 4;

/// The number of bytes of a stored output value.
pub const OUTPUT_BYTES: usize = 2;

/// The unsigned 32-bit pattern of a signed value, in two's complement.
pub open spec fn pattern_of(value: i32) -> int {
    if value < 0 {
        value + 0x1_0000_0000
    } else {
        value as int
    }
}

/// The signed value of an unsigned 32-bit pattern, in two's complement.
pub open spec fn value_of(pattern: int) -> int {
    if pattern >= 0x8000_0000 {
        pattern - 0x1_0000_0000
    } else {
        pattern
    }
}

/// Four bytes in the given order, brought into little-endian order.
pub open spec fn in_little_order(bytes: Seq<u8>, endian: Endian) -> Seq<u8> {
    match endian {
        Endian::Little => bytes,
        Endian::Big => seq![bytes[3], bytes[2], bytes[1], bytes[0]],
    }
}

/// The signed 32-bit value that four bytes hold in the given order.
pub open spec fn i32_from_bytes(bytes: Seq<u8>, endian: Endian) -> int {
    let le = in_little_order(bytes, endian);
    value_of(le[0] + 0x100 * le[1] + 0x1_0000 * le[2] + 0x100_0000 * le[3])
}

/// The four bytes of a signed 32-bit value in the given order.
pub open spec fn i32_to_bytes(value: i32, endian: Endian) -> Seq<u8> {
    let p = pattern_of(value);
    let b0 = (p % 0x100) as u8;
    let b1 = (p / 0x100 % 0x100) as u8;
    let b2 = (p / 0x1_0000 % 0x100) as u8;
    let b3 = (p / 0x100_0000 % 0x100) as u8;
    match endian {
        Endian::Little => seq![b0, b1, b2, b3],
        Endian::Big => seq![b3, b2, b1, b0],
    }
}

/// The two bytes of an unsigned 16-bit value in the given order.
pub open spec fn u16_to_bytes(value: u16, endian: Endian) -> Seq<u8> {
    let low = (value % 0x100) as u8;
    let high = (value / 0x100) as u8;
    match endian {
        Endian::Little => seq![low, high],
        Endian::Big => seq![high, low],
    }
}

/// The values of the complete four-byte entries of `bytes`, in order. Bytes
/// after the last complete entry are not part of any value.
pub open spec fn entries_of(bytes: Seq<u8>, endian: Endian) -> Seq<i32> {
    Seq::new(
        (bytes.len() / 4) as nat,
        |i: int| i32_from_bytes(bytes.subrange(4 * i, 4 * i + 4), endian) as i32,
    )
}

/// The bytes of a sequence of 32-bit values, one entry after the other.
pub open spec fn entries_to_bytes(values: Seq<i32>, endian: Endian) -> Seq<u8> {
    Seq::new(4 * values.len(), |k: int| i32_to_bytes(values[k / 4], endian)[k % 4])
}

/// The bytes of an output table, one 16-bit value after the other.
pub open spec fn table_to_bytes(table: Seq<u16>, endian: Endian) -> Seq<u8> {
    Seq::new(2 * table.len(), |k: int| u16_to_bytes(table[k / 2], endian)[k % 2])
}

/// Writing a value and reading the bytes back gives the value.
pub proof fn lemma_i32_round_trip(value: i32, endian: Endian)
    ensures
        i32_to_bytes(value, endian).len() == 4,
        i32_from_bytes(i32_to_bytes(value, endian), endian) == value,
{
}

/// Writing a sequence of values and reading the bytes back gives the
/// values: what a run appends to the cache is what the next run finds there.
pub proof fn lemma_entries_round_trip(values: Seq<i32>, endian: Endian)
    ensures
        entries_to_bytes(values, endian).len() == 4 * values.len(),
        entries_of(entries_to_bytes(values, endian), endian) == values,
{
    let bytes = entries_to_bytes(values, endian);
    assert forall|i: int| 0 <= i < values.len() implies entries_of(bytes, endian)[i]
        == values[i] by {
        let entry = bytes.subrange(4 * i, 4 * i + 4);
        assert(entry =~= i32_to_bytes(values[i], endian)) by {
            assert forall|k: int| 0 <= k < 4 implies entry[k] == i32_to_bytes(
                values[i],
                endian,
            )[k] by {
                assert((4 * i + k) / 4 == i && (4 * i + k) % 4 == k);
            }
        }
        lemma_i32_round_trip(values[i], endian);
    }
    assert(entries_of(bytes, endian) =~= values);
}

/// Reads one signed 32-bit value from four bytes.
pub fn decode_i32(bytes: &[u8], endian: Endian) -> (value: i32)
    requires
        bytes@.len() == 4,
    ensures
        value == i32_from_bytes(bytes@, endian),
{
    let (b0, b1, b2, b3) = match endian {
        Endian::Little => (bytes[0], bytes[1], bytes[2], bytes[3]),
        Endian::Big => (bytes[3], bytes[2], bytes[1], bytes[0]),
    };
    let pattern: u32 = b0 as u32 + 0x100 * (b1 as u32) + 0x1_0000 * (b2 as u32) + 0x100_0000 * (
    b3 as u32);
    if pattern >= 0x8000_0000 {
        (pattern - 0x8000_0000) as i32 + i32::MIN
    } else {
        pattern as i32
    }
}

/// Writes one signed 32-bit value as four bytes.
pub fn encode_i32(value: i32, endian: Endian) -> (bytes: [u8; 4])
    ensures
        bytes@ == i32_to_bytes(value, endian),
{
    let pattern: u32 = if value < 0 {
        (value as i64 + 0x1_0000_0000) as u32
    } else {
        value as u32
    };
    let b0: u8 = (pattern % 0x100) as u8;
    let b1: u8 = (pattern / 0x100 % 0x100) as u8;
    let b2: u8 = (pattern / 0x1_0000 % 0x100) as u8;
    let b3: u8 = (pattern / 0x100_0000 % 0x100) as u8;
    let bytes: [u8; 4] = match endian {
        Endian::Little => [b0, b1, b2, b3],
        Endian::Big => [b3, b2, b1, b0],
    };
    assert(bytes@ =~= i32_to_bytes(value, endian));
    bytes
}

/// Writes one unsigned 16-bit value as two bytes.
pub fn encode_u16(value: u16, endian: Endian) -> (bytes: [u8; 2])
    ensures
        bytes@ == u16_to_bytes(value, endian),
{
    let low: u8 = (value % 0x100) as u8;
    let high: u8 = (value / 0x100) as u8;
    let bytes: [u8; 2] = match endian {
        Endian::Little => [low, high],
        Endian::Big => [high, low],
    };
    assert(bytes@ =~= u16_to_bytes(value, endian));
    bytes
}

/// Reads the complete entries of a cache or of a database row.
pub fn decode_entries(bytes: &[u8], endian: Endian) -> (values: Vec<i32>)
    ensures
        values@ == entries_of(bytes@, endian),
{
    let count: usize = bytes.len() / 4;
    let mut values: Vec<i32> = Vec::with_capacity(count);
    let mut i: usize = 0;
    while i < count
        invariant
            count == bytes@.len() / 4,
            bytes@.len() <= usize::MAX,
            i <= count,
            values@.len() == i,
            forall|j: int|
                0 <= j < i ==> values@[j] == i32_from_bytes(
                    bytes@.subrange(4 * j, 4 * j + 4),
                    endian,
                ),
        decreases count - i,
    {
        let entry = slice_subrange(bytes, 4 * i, 4 * i + 4);
        values.push(decode_i32(entry, endian));
        i = i + 1;
    }
    assert(values@ =~= entries_of(bytes@, endian));
    values
}

/// Writes a sequence of 32-bit values, one entry after the other.
pub fn encode_entries(values: &[i32], endian: Endian) -> (bytes: Vec<u8>)
    ensures
        bytes@ == entries_to_bytes(values@, endian),
{
    let mut bytes: Vec<u8> = Vec::new();
    let mut i: usize = 0;
    while i < values.len()
        invariant
            i <= values.len(),
            bytes@ == entries_to_bytes(values@.take(i as int), endian),
        decreases values.len() - i,
    {
        let entry = encode_i32(values[i], endian);
        let ghost before = bytes@;
        bytes.push(entry[0]);
        bytes.push(entry[1]);
        bytes.push(entry[2]);
        bytes.push(entry[3]);
        assert(bytes@ =~= entries_to_bytes(values@.take(i + 1), endian));
        i = i + 1;
    }
    assert(values@.take(values.len() as int) =~= values@);
    bytes
}

/// Writes an output table, one 16-bit value after the other.
pub fn encode_table(table: &[u16], endian: Endian) -> (bytes: Vec<u8>)
    ensures
        bytes@ == table_to_bytes(table@, endian),
{
    let mut bytes: Vec<u8> = Vec::new();
    let mut i: usize = 0;
    while i < table.len()
        invariant
            i <= table.len(),
            bytes@ == table_to_bytes(table@.take(i as int), endian),
        decreases table.len() - i,
    {
        let entry = encode_u16(table[i], endian);
        bytes.push(entry[0]);
        bytes.push(entry[1]);
        assert(bytes@ =~= table_to_bytes(table@.take(i + 1), endian));
        i = i + 1;
    }
    assert(table@.take(table.len() as int) =~= table@);
    bytes
}

} // verus!
