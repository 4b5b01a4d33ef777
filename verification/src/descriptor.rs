//! The region descriptor and its eight-byte form in linear memory.

use vstd::prelude::*;
use crate::layout::Layout;

verus! {

/// The number of bytes a descriptor occupies in linear memory.
pub const DESCRIPTOR_SIZE: u32 = 8;

/// The alignment of a descriptor in linear memory: that of its 32-bit fields.
pub const DESCRIPTOR_ALIGN: u32 = 4;

/// A region of linear memory: where it starts and how many bytes it holds.
///
/// In linear memory a descriptor is two consecutive 32-bit little-endian
/// fields without padding, `ptr` first. The address at which a descriptor is
/// stored is the handle that a host holds for the region.
#[derive(Clone, Copy, Debug, PartialEq, Eq, Structural)]
pub struct MemorySlice {
    /// The address of the first byte of the region.
    pub ptr: u32,
    /// The number of bytes in the region.
    pub len: u32,
}

/// The four bytes of `x`, least significant first.
pub open spec fn le_bytes(x: u32) -> Seq<u8> {
    seq![
        (x % 256) as u8,
        (x / 256 % 256) as u8,
        (x / 65536 % 256) as u8,
        (x / 16777216) as u8,
    ]
}

/// The number whose bytes, least significant first, are the first four of `bytes`.
pub open spec fn le_value(bytes: Seq<u8>) -> int {
    bytes[0] + 256 * bytes[1] + 65536 * bytes[2] + 16777216 * bytes[3]
}

/// Writes out the four bytes of `x`, least significant first, at the end of `out`.
fn push_le_bytes(out: &mut Vec<u8>, x: u32)
    ensures
        final(out)@ == old(out)@ + le_bytes(x),
{
    out.push((x % 256) as u8);
    out.push((x / 256 % 256) as u8);
    out.push((x / 65536 % 256) as u8);
    out.push((x / 16777216) as u8);
}

/// Reads the 32-bit number stored least significant byte first at `bytes[at..at + 4]`.
fn read_le_value(bytes: &[u8], at: usize) -> (x: u32)
    requires
        at + 4 <= bytes@.len(),
    ensures
        x == le_value(bytes@.subrange(at as int, at + 4)),
{
    let b0: u32 = bytes[at] as u32;
    let b1: u32 = bytes[at + 1] as u32;
    let b2: u32 = bytes[at + 2] as u32;
    let b3: u32 = bytes[at + 3] as u32;
    b0 + 256 * b1 + 65536 * b2 + 16777216 * b3
}

impl MemorySlice {
    /// The layout of a region of `len` bytes: arbitrary data, for which byte
    /// alignment suffices.
    pub open spec fn spec_layout(len: u32) -> Layout {
        Layout { size: len, align: 1 }
    }

    /// The layout of a region of `len` bytes.
    #[verifier::when_used_as_spec(spec_layout)]
    pub fn layout(len: u32) -> (layout: Layout)
        ensures
            layout == Self::spec_layout(len),
            layout.size == len,
            layout.align == 1,
            layout.valid(),
    {
        Layout { size: len, align: 1 }
    }

    /// The layout of a descriptor in linear memory.
    pub open spec fn spec_descriptor_layout() -> Layout {
        Layout { size: DESCRIPTOR_SIZE, align: DESCRIPTOR_ALIGN }
    }

    /// The layout of a descriptor in linear memory.
    #[verifier::when_used_as_spec(spec_descriptor_layout)]
    pub fn descriptor_layout() -> (layout: Layout)
        ensures
            layout == Self::spec_descriptor_layout(),
            layout.valid(),
    {
        Layout { size: DESCRIPTOR_SIZE, align: DESCRIPTOR_ALIGN }
    }

    /// The eight bytes that stand for this descriptor in linear memory.
    pub open spec fn encoding(self) -> Seq<u8> {
        le_bytes(self.ptr) + le_bytes(self.len)
    }

    /// The descriptor that the first eight bytes of `bytes` stand for.
    pub open spec fn decoding(bytes: Seq<u8>) -> MemorySlice {
        MemorySlice {
            ptr: le_value(bytes.subrange(0, 4)) as u32,
            len: le_value(bytes.subrange(4, 8)) as u32,
        }
    }

    /// The eight bytes that stand for this descriptor in linear memory.
    pub fn encode(&self) -> (bytes: Vec<u8>)
        ensures
            bytes@ == self.encoding(),
            bytes@.len() == DESCRIPTOR_SIZE,
    {
        let mut bytes: Vec<u8> = Vec::new();
        push_le_bytes(&mut bytes, self.ptr);
        push_le_bytes(&mut bytes, self.len);
        bytes
    }

    /// The descriptor that eight bytes of linear memory stand for.
    pub fn decode(bytes: &[u8]) -> (slice: MemorySlice)
        requires
            bytes@.len() == DESCRIPTOR_SIZE,
        ensures
            slice == Self::decoding(bytes@),
    {
        MemorySlice { ptr: read_le_value(bytes, 0), len: read_le_value(bytes, 4) }
    }

    /// Decoding undoes encoding: the eight bytes of a descriptor stand for it
    /// and for no other.
    pub proof fn lemma_decoding_of_encoding(self)
        ensures
            self.encoding().len() == DESCRIPTOR_SIZE,
            Self::decoding(self.encoding()) == self,
    {
        let e = self.encoding();
        assert(e.subrange(0, 4) =~= le_bytes(self.ptr));
        assert(e.subrange(4, 8) =~= le_bytes(self.len));
        lemma_le_value_of_le_bytes(self.ptr);
        lemma_le_value_of_le_bytes(self.len);
    }

    /// Encoding undoes decoding: eight bytes are the encoding of the
    /// descriptor they stand for.
    pub proof fn lemma_encoding_of_decoding(bytes: Seq<u8>)
        requires
            bytes.len() == DESCRIPTOR_SIZE,
        ensures
            Self::decoding(bytes).encoding() == bytes,
    {
        lemma_le_bytes_of_le_value(bytes.subrange(0, 4));
        lemma_le_bytes_of_le_value(bytes.subrange(4, 8));
        assert(bytes =~= bytes.subrange(0, 4) + bytes.subrange(4, 8));
    }
}

/// The digits of a number below 2^32 in base 256, least significant first,
/// are the only four digits that add up to it.
proof fn lemma_base_256(x: int, b0: int, b1: int, b2: int, b3: int)
    requires
        0 <= b0 < 256,
        0 <= b1 < 256,
        0 <= b2 < 256,
        0 <= b3 < 256,
        x == b0 + 256 * b1 + 65536 * b2 + 16777216 * b3,
    ensures
        0 <= x <= u32::MAX,
        x % 256 == b0,
        x / 256 % 256 == b1,
        x / 65536 % 256 == b2,
        x / 16777216 == b3,
{
    let x1 = b1 + 256 * b2 + 65536 * b3;
    let x2 = b2 + 256 * b3;
    assert(x == 256 * x1 + b0);
    assert(x / 256 == x1 && x % 256 == b0);
    assert(x1 == 256 * x2 + b1);
    assert(x1 / 256 == x2 && x1 % 256 == b1);
    assert(x == 65536 * x2 + (b0 + 256 * b1));
    assert(x / 65536 == x2);
    assert(x2 / 256 == b3 && x2 % 256 == b2);
    assert(x == 16777216 * b3 + (b0 + 256 * b1 + 65536 * b2));
    assert(x / 16777216 == b3);
}

/// The four bytes of a 32-bit number add up to it again.
pub proof fn lemma_le_value_of_le_bytes(x: u32)
    ensures
        le_bytes(x).len() == 4,
        le_value(le_bytes(x)) == x,
{
    let b0 = x % 256;
    let b1 = x / 256 % 256;
    let b2 = x / 65536 % 256;
    let b3 = x / 16777216;
    let x1 = x / 256;
    let x2 = x1 / 256;
    let x3 = x2 / 256;
    assert(x == 256 * x1 + b0);
    assert(x1 == 256 * x2 + x1 % 256);
    assert(x2 == 256 * x3 + x2 % 256);
    assert(x == 65536 * x2 + (b0 + 256 * (x1 % 256)));
    assert(x / 65536 == x2);
    assert(x == 16777216 * x3 + (b0 + 256 * (x1 % 256) + 65536 * (x2 % 256)));
    assert(x / 16777216 == x3);
    assert(b3 < 256);
}

/// Four bytes are the bytes of the number they add up to.
pub proof fn lemma_le_bytes_of_le_value(bytes: Seq<u8>)
    requires
        bytes.len() == 4,
    ensures
        0 <= le_value(bytes) <= u32::MAX,
        le_bytes(le_value(bytes) as u32) == bytes,
{
    lemma_base_256(
        le_value(bytes),
        bytes[0] as int,
        bytes[1] as int,
        bytes[2] as int,
        bytes[3] as int,
    );
    assert(le_bytes(le_value(bytes) as u32) =~= bytes);
}

} // verus!
