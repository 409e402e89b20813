//! The wire format of a frame, as mathematics: the bytes of the headers and
//! of the blocks, and the frames that the encoder writes.

use vstd::prelude::*;

verus! {

/// The number that every frame begins with, written little-endian.
pub const MAGIC_NUM: u32 = 0xFD2F_B528;

/// No block holds more bytes than this: 128 KiB less a margin of 20 bytes
/// kept for headers.
pub const MAX_BLOCK_SIZE: usize = 131052;

/// The window size that every frame of this encoder announces.
pub const WINDOW_SIZE: u64 = 262144;

/// How a block represents its bytes.
#[derive(Debug, Copy, Clone, Hash, PartialEq, Eq, Structural)]
pub enum BlockType {
    /// The payload is the bytes themselves.
    Raw,
    /// The payload is one byte, to be repeated as often as the header says.
    RLE,
    /// The payload is an entropy-coded stream.
    Compressed,
    /// Not in use; no block may have this type.
    Reserved,
}

/// The two bits by which a block header names a block type.
pub open spec fn block_type_code(block_type: BlockType) -> nat {
    match block_type {
        BlockType::Raw => 0,
        BlockType::RLE => 1,
        BlockType::Compressed => 2,
        BlockType::Reserved => 3,
    }
}

/// The block type that the two bits `code` name.
pub open spec fn block_type_of_code(code: nat) -> BlockType {
    if code == 0 {
        BlockType::Raw
    } else if code == 1 {
        BlockType::RLE
    } else if code == 2 {
        BlockType::Compressed
    } else {
        BlockType::Reserved
    }
}

/// The four bytes of the magic number.
pub open spec fn magic_bytes() -> Seq<u8> {
    seq![0x28u8, 0xB5u8, 0x2Fu8, 0xFDu8]
}

/// The descriptor byte of a frame header: the size code of the content size
/// field in the two highest bits, then the single-segment flag, an unused and
/// a reserved bit, the checksum flag, and the size code of the dictionary id
/// in the two lowest bits.
pub open spec fn frame_descriptor(
    content_size_code: nat,
    single_segment: bool,
    content_checksum: bool,
    dictionary_id_code: nat,
) -> nat {
    content_size_code * 64 + (if single_segment {
        32nat
    } else {
        0nat
    }) + (if content_checksum {
        4nat
    } else {
        0nat
    }) + dictionary_id_code
}

/// The window descriptor byte for a window of `2^(10 + exponent)` bytes plus
/// `mantissa` eighths of that.
pub open spec fn window_descriptor(exponent: nat, mantissa: nat) -> nat {
    exponent * 8 + mantissa
}

/// The header of every frame of this encoder: the magic number, a descriptor
/// that announces no content size, several segments, no checksum and no
/// dictionary, and the descriptor of a window of [`WINDOW_SIZE`] bytes.
pub open spec fn frame_header_bytes() -> Seq<u8> {
    magic_bytes() + seq![
        frame_descriptor(0, false, false, 0) as u8,
        window_descriptor(8, 0) as u8,
    ]
}

/// The number that a block header holds: the last-block flag in the lowest
/// bit, the block type in the next two, the size above them.
pub open spec fn block_header_value(last_block: bool, block_type: BlockType, size: nat) -> nat {
    size * 8 + block_type_code(block_type) * 2 + (if last_block {
        1nat
    } else {
        0nat
    })
}

/// The three bytes of a block header, little-endian.
pub open spec fn block_header_bytes(last_block: bool, block_type: BlockType, size: nat) -> Seq<u8> {
    let v = block_header_value(last_block, block_type, size);
    seq![(v % 256) as u8, ((v / 256) % 256) as u8, ((v / 65536) % 256) as u8]
}

/// A raw block: its header, then the bytes.
pub open spec fn raw_block(last_block: bool, bytes: Seq<u8>) -> Seq<u8> {
    block_header_bytes(last_block, BlockType::Raw, bytes.len()) + bytes
}

/// A run-length block: its header with the length of the run, then the byte
/// that is repeated.
pub open spec fn rle_block(last_block: bool, byte: u8, count: nat) -> Seq<u8> {
    block_header_bytes(last_block, BlockType::RLE, count).push(byte)
}

/// A compressed block: its header with the length of the payload, then the
/// payload.
pub open spec fn compressed_block(last_block: bool, payload: Seq<u8>) -> Seq<u8> {
    block_header_bytes(last_block, BlockType::Compressed, payload.len()) + payload
}

/// The number of blocks that an input of `len` bytes is cut into: blocks of
/// [`MAX_BLOCK_SIZE`] bytes, the last one shorter where `len` asks for it. An
/// empty input still has one block.
pub open spec fn block_count(len: nat) -> nat {
    if len == 0 {
        1
    } else {
        ((len + MAX_BLOCK_SIZE - 1) / (MAX_BLOCK_SIZE as int)) as nat
    }
}

/// The bytes of `data` that block `i` stands for.
pub open spec fn chunk(data: Seq<u8>, i: int) -> Seq<u8> {
    let start = i * MAX_BLOCK_SIZE;
    let end = if start + MAX_BLOCK_SIZE <= data.len() {
        start + MAX_BLOCK_SIZE
    } else {
        data.len() as int
    };
    data.subrange(start, end)
}

/// Whether block `i` is the last block of an input of `len` bytes.
pub open spec fn is_last_block(len: nat, i: int) -> bool {
    i == block_count(len) - 1
}

/// The parts one after the other.
pub open spec fn concat(parts: Seq<Seq<u8>>) -> Seq<u8>
    decreases parts.len(),
{
    if parts.len() == 0 {
        Seq::empty()
    } else {
        concat(parts.drop_last()) + parts.last()
    }
}

/// The raw blocks that hold `data`, block by block.
pub open spec fn raw_frame_blocks(data: Seq<u8>) -> Seq<Seq<u8>> {
    Seq::new(
        block_count(data.len()),
        |i: int| raw_block(is_last_block(data.len(), i), chunk(data, i)),
    )
}

/// The frame that holds `data` uncompressed: the frame header, then `data`
/// in raw blocks.
pub open spec fn uncompressed_frame(data: Seq<u8>) -> Seq<u8> {
    frame_header_bytes() + concat(raw_frame_blocks(data))
}

/// Whether all bytes are equal to the first.
pub open spec fn is_uniform(bytes: Seq<u8>) -> bool {
    forall|i: int| 0 <= i < bytes.len() ==> #[trigger] bytes[i] == bytes.first()
}

/// The block that the fastest level writes for `bytes`, where `payload` is
/// what the block compressor made of them: a run-length block where all
/// bytes are equal, else a compressed block with `payload` where that is
/// shorter than [`MAX_BLOCK_SIZE`], else a raw block. Without bytes it is an
/// empty raw block.
pub open spec fn fastest_block(last_block: bool, bytes: Seq<u8>, payload: Seq<u8>) -> Seq<u8> {
    if bytes.len() == 0 {
        raw_block(last_block, bytes)
    } else if is_uniform(bytes) {
        rle_block(last_block, bytes[0], bytes.len())
    } else if payload.len() >= MAX_BLOCK_SIZE {
        raw_block(last_block, bytes)
    } else {
        compressed_block(last_block, payload)
    }
}

/// The blocks that the fastest level writes for `data`, block by block, where
/// `payloads[i]` is what the block compressor made of block `i`.
pub open spec fn fastest_frame_blocks(data: Seq<u8>, payloads: Seq<Seq<u8>>) -> Seq<Seq<u8>> {
    Seq::new(
        block_count(data.len()),
        |i: int| fastest_block(is_last_block(data.len(), i), chunk(data, i), payloads[i]),
    )
}

/// The frame that the fastest level writes for `data`: the frame header,
/// then the blocks.
pub open spec fn fastest_frame(data: Seq<u8>, payloads: Seq<Seq<u8>>) -> Seq<u8> {
    frame_header_bytes() + concat(fastest_frame_blocks(data, payloads))
}

} // verus!
