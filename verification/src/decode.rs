//! A reference reading of frames, as mathematics, and the laws that tie the
//! frames of the encoder to it.

use crate::format::block_count;
use crate::format::block_header_bytes;
use crate::format::block_header_value;
use crate::format::block_type_of_code;
use crate::format::chunk;
use crate::format::concat;
use crate::format::fastest_frame;
use crate::format::fastest_frame_blocks;
use crate::format::frame_header_bytes;
use crate::format::is_last_block;
use crate::format::is_uniform;
use crate::format::magic_bytes;
use crate::format::raw_frame_blocks;
use crate::format::rle_block;
use crate::format::uncompressed_frame;
use crate::format::BlockType;
use crate::format::MAGIC_NUM;
use crate::format::MAX_BLOCK_SIZE;
use crate::format::WINDOW_SIZE;
use crate::frame::is_fastest_log;
use crate::frame::request_data;
use crate::frame::Request;
use vstd::arithmetic::power2::lemma2_to64;
use vstd::arithmetic::power2::pow2;
use vstd::prelude::*;

verus! {

/// A block as a reader sees it.
pub struct Block {
    /// Whether the header flags the block as the last of its frame.
    pub last_block: bool,
    /// The block type that the header names.
    pub block_type: BlockType,
    /// The size that the header holds.
    pub size: nat,
    /// The bytes between the header and the next block.
    pub payload: Seq<u8>,
}

/// The number of payload bytes that follow a header with this type and size.
pub open spec fn payload_len(block_type: BlockType, size: nat) -> nat {
    match block_type {
        BlockType::Raw => size,
        BlockType::RLE => 1,
        BlockType::Compressed => size,
        BlockType::Reserved => 0,
    }
}

/// Whether the block can be written: its size fits the 21 bits of a header,
/// its type is in use, and its payload has the length that type and size ask
/// for.
pub open spec fn block_is_valid(block: Block) -> bool {
    &&& block.size < 0x20_0000
    &&& block.block_type != BlockType::Reserved
    &&& block.payload.len() == payload_len(block.block_type, block.size)
}

/// The bytes of a block: header, then payload.
pub open spec fn block_bytes(block: Block) -> Seq<u8> {
    block_header_bytes(block.last_block, block.block_type, block.size) + block.payload
}

/// The blocks that `bytes` hold: block after block up to the first that is
/// flagged as last, after which no byte may follow. `None` where the bytes
/// end within a block or name the reserved type.
pub open spec fn read_blocks(bytes: Seq<u8>) -> Option<Seq<Block>>
    decreases bytes.len(),
{
    if bytes.len() < 3 {
        None
    } else {
        let value = (bytes[0] as nat) + 256 * (bytes[1] as nat) + 65536 * (bytes[2] as nat);
        let block_type = block_type_of_code((value / 2) % 4);
        let size = value / 8;
        let end = 3 + payload_len(block_type, size);
        if block_type == BlockType::Reserved || bytes.len() < end {
            None
        } else {
            let block = Block {
                last_block: value % 2 == 1,
                block_type,
                size,
                payload: bytes.subrange(3, end as int),
            };
            if block.last_block {
                if bytes.len() == end {
                    Some(seq![block])
                } else {
                    None
                }
            } else {
                match read_blocks(bytes.skip(end as int)) {
                    Some(blocks) => Some(seq![block] + blocks),
                    None => None,
                }
            }
        }
    }
}

/// A reading of the payloads of compressed blocks: from the bytes that the
/// blocks before stand for and the payload to the bytes that the block
/// stands for, or `None` where the payload cannot be read.
pub type PayloadReader = spec_fn(Seq<u8>, Seq<u8>) -> Option<Seq<u8>>;

/// The reading that reads no payload.
pub open spec fn no_payload_reader() -> PayloadReader {
    |history: Seq<u8>, payload: Seq<u8>| None::<Seq<u8>>
}

/// The bytes that a block stands for after `history`: the payload of a raw
/// block, the byte of a run-length block as often as its size says, and of
/// a compressed block what `reader` reads.
pub open spec fn block_content(block: Block, history: Seq<u8>, reader: PayloadReader) -> Option<
    Seq<u8>,
> {
    match block.block_type {
        BlockType::Raw => Some(block.payload),
        BlockType::RLE => Some(Seq::new(block.size, |i: int| block.payload[0])),
        BlockType::Compressed => reader(history, block.payload),
        BlockType::Reserved => None,
    }
}

/// The bytes that the blocks stand for, one block after the other; `None`
/// where `reader` cannot read the payload of a compressed block.
pub open spec fn contents(blocks: Seq<Block>, reader: PayloadReader) -> Option<Seq<u8>>
    decreases blocks.len(),
{
    if blocks.len() == 0 {
        Some(Seq::empty())
    } else {
        match contents(blocks.drop_last(), reader) {
            Some(front) => match block_content(blocks.last(), front, reader) {
                Some(back) => Some(front + back),
                None => None,
            },
            None => None,
        }
    }
}

/// The number of bytes of the dictionary id field, by its size code.
pub open spec fn dictionary_id_len(code: nat) -> nat {
    if code == 0 {
        0
    } else if code == 1 {
        1
    } else if code == 2 {
        2
    } else {
        4
    }
}

/// The number of bytes of the content size field, by its size code.
pub open spec fn content_size_len(code: nat, single_segment: bool) -> nat {
    if code == 0 {
        if single_segment {
            1
        } else {
            0
        }
    } else if code == 1 {
        2
    } else if code == 2 {
        4
    } else {
        8
    }
}

/// The number of bytes of a frame header after the magic number, by its
/// descriptor byte: the descriptor, the window descriptor unless the frame
/// is a single segment, the dictionary id and the content size.
pub open spec fn frame_header_len(descriptor: nat) -> nat {
    let single_segment = (descriptor / 32) % 2 == 1;
    1 + (if single_segment {
        0nat
    } else {
        1nat
    }) + dictionary_id_len(descriptor % 4) + content_size_len(descriptor / 64, single_segment)
}

/// What a frame header announces.
pub struct FrameHeader {
    /// The number of bytes that the frame stands for, where it is given.
    pub frame_content_size: Option<nat>,
    /// Whether the frame is to be decoded into one segment of memory.
    pub single_segment: bool,
    /// Whether a checksum follows the last block.
    pub content_checksum: bool,
    /// The dictionary that the frame needs, where it needs one.
    pub dictionary_id: Option<nat>,
    /// The size of the window that back-references may reach into; a single
    /// segment has none of its own.
    pub window_size: Option<nat>,
}

/// The number that the bytes hold, little-endian.
pub open spec fn le_value(bytes: Seq<u8>) -> nat
    decreases bytes.len(),
{
    if bytes.len() == 0 {
        0
    } else {
        bytes[0] as nat + 256 * le_value(bytes.skip(1))
    }
}

/// The window size that a window descriptor byte stands for: `2^(10 +
/// exponent)` bytes for the exponent in its five high bits, plus as many
/// eighths of that as the mantissa in its three low bits says.
pub open spec fn window_size_of(descriptor: nat) -> nat {
    let base = pow2(10 + descriptor / 8);
    base + base / 8 * (descriptor % 8)
}

/// What the frame header that begins after the magic number announces;
/// `None` where the bytes end within the header or the descriptor sets its
/// reserved bit.
pub open spec fn read_frame_header(bytes: Seq<u8>) -> Option<FrameHeader> {
    if bytes.len() < 5 || bytes.len() < 4 + frame_header_len(bytes[4] as nat) {
        None
    } else {
        let descriptor = bytes[4] as nat;
        let single_segment = (descriptor / 32) % 2 == 1;
        let reserved = (descriptor / 8) % 2 == 1;
        let window_at = 5int;
        let dictionary_at = window_at + if single_segment {
            0int
        } else {
            1int
        };
        let content_size_at = dictionary_at + dictionary_id_len(descriptor % 4);
        let end = content_size_at + content_size_len(descriptor / 64, single_segment);
        let content_size = le_value(bytes.subrange(content_size_at, end));
        if reserved {
            None
        } else {
            Some(
                FrameHeader {
                    frame_content_size: if end == content_size_at {
                        None
                    } else if descriptor / 64 == 1 {
                        Some(content_size + 256)
                    } else {
                        Some(content_size)
                    },
                    single_segment,
                    content_checksum: (descriptor / 4) % 2 == 1,
                    dictionary_id: if descriptor % 4 == 0 {
                        None
                    } else {
                        Some(le_value(bytes.subrange(dictionary_at, content_size_at)))
                    },
                    window_size: if single_segment {
                        None
                    } else {
                        Some(window_size_of(bytes[window_at] as nat))
                    },
                },
            )
        }
    }
}

/// The blocks of a frame: what follows the magic number and the frame
/// header. `None` where the bytes do not begin with the magic number, where
/// the header cannot be read or announces a checksum, which this reading
/// does not cover, or where the blocks cannot be read.
pub open spec fn frame_blocks(bytes: Seq<u8>) -> Option<Seq<Block>> {
    if bytes.len() < 4 || bytes.take(4) != magic_bytes() {
        None
    } else {
        match read_frame_header(bytes) {
            Some(header) => if header.content_checksum {
                None
            } else {
                read_blocks(bytes.skip(4 + frame_header_len(bytes[4] as nat) as int))
            },
            None => None,
        }
    }
}

/// The bytes that a frame stands for, where `reader` reads the payloads of
/// its compressed blocks.
pub open spec fn decode_frame(bytes: Seq<u8>, reader: PayloadReader) -> Option<Seq<u8>> {
    match frame_blocks(bytes) {
        Some(blocks) => contents(blocks, reader),
        None => None,
    }
}

/// The parts one after the other are the first part, then the others.
pub proof fn lemma_concat_front(parts: Seq<Seq<u8>>)
    requires
        parts.len() > 0,
    ensures
        concat(parts) == parts.first() + concat(parts.skip(1)),
    decreases parts.len(),
{
    if parts.len() == 1 {
        assert(parts.drop_last() =~= Seq::<Seq<u8>>::empty());
        assert(parts.skip(1) =~= Seq::<Seq<u8>>::empty());
        assert(concat(parts.drop_last()) =~= Seq::<u8>::empty());
        assert(concat(parts) =~= parts.first() + concat(parts.skip(1)));
    } else {
        lemma_concat_front(parts.drop_last());
        assert(parts.drop_last().skip(1) =~= parts.skip(1).drop_last());
        assert(parts.skip(1).last() == parts.last());
        assert(concat(parts) =~= parts.first() + concat(parts.skip(1)));
    }
}

/// A header's three bytes give back its flag, type and size.
pub proof fn lemma_block_header_roundtrip(last_block: bool, block_type: BlockType, size: nat)
    requires
        size < 0x20_0000,
    ensures
        ({
            let bytes = block_header_bytes(last_block, block_type, size);
            let value = (bytes[0] as nat) + 256 * (bytes[1] as nat) + 65536 * (bytes[2] as nat);
            &&& bytes.len() == 3
            &&& value == block_header_value(last_block, block_type, size)
            &&& (value % 2 == 1) == last_block
            &&& block_type_of_code((value / 2) % 4) == block_type
            &&& value / 8 == size
        }),
{
}

/// Reading the bytes of valid blocks, of which the last and no other is
/// flagged as last, gives these blocks back.
pub proof fn lemma_read_blocks_roundtrip(blocks: Seq<Block>)
    requires
        blocks.len() > 0,
        forall|i: int| 0 <= i < blocks.len() ==> block_is_valid(#[trigger] blocks[i]),
        forall|i: int|
            0 <= i < blocks.len() ==> ((#[trigger] blocks[i]).last_block <==> i == blocks.len() - 1),
    ensures
        read_blocks(concat(blocks.map_values(|b: Block| block_bytes(b)))) == Some(blocks),
    decreases blocks.len(),
{
    let parts = blocks.map_values(|b: Block| block_bytes(b));
    let first = blocks.first();
    let bytes = concat(parts);
    lemma_concat_front(parts);
    lemma_block_header_roundtrip(first.last_block, first.block_type, first.size);
    let end = 3 + payload_len(first.block_type, first.size);
    assert(parts.first() == block_bytes(first));
    assert(bytes.subrange(3, end as int) =~= first.payload);
    assert(bytes.skip(end as int) =~= concat(parts.skip(1)));
    assert(bytes[0] == block_bytes(first)[0]);
    assert(bytes[1] == block_bytes(first)[1]);
    assert(bytes[2] == block_bytes(first)[2]);
    if blocks.len() == 1 {
        assert(parts.skip(1) =~= Seq::<Seq<u8>>::empty());
        assert(concat(parts.skip(1)) =~= Seq::<u8>::empty());
        assert(seq![first] =~= blocks);
    } else {
        let rest = blocks.skip(1);
        assert(rest.map_values(|b: Block| block_bytes(b)) =~= parts.skip(1));
        lemma_read_blocks_roundtrip(rest);
        assert(seq![first] + rest =~= blocks);
    }
}

/// The block that a reader finds where the encoder wrote a raw block.
pub open spec fn raw_record(last_block: bool, bytes: Seq<u8>) -> Block {
    Block { last_block, block_type: BlockType::Raw, size: bytes.len(), payload: bytes }
}

/// The block that a reader finds where the fastest level wrote the block for
/// `bytes` with `payload` from the block compressor.
pub open spec fn fastest_record(last_block: bool, bytes: Seq<u8>, payload: Seq<u8>) -> Block {
    if bytes.len() == 0 {
        raw_record(last_block, bytes)
    } else if is_uniform(bytes) {
        Block {
            last_block,
            block_type: BlockType::RLE,
            size: bytes.len(),
            payload: seq![bytes[0]],
        }
    } else if payload.len() >= MAX_BLOCK_SIZE {
        raw_record(last_block, bytes)
    } else {
        Block { last_block, block_type: BlockType::Compressed, size: payload.len(), payload }
    }
}

/// The blocks that a reader finds in the uncompressed frame of `data`.
pub open spec fn raw_records(data: Seq<u8>) -> Seq<Block> {
    Seq::new(
        block_count(data.len()),
        |i: int| raw_record(is_last_block(data.len(), i), chunk(data, i)),
    )
}

/// The blocks that a reader finds in the frame of the fastest level for
/// `data` and `payloads`.
pub open spec fn fastest_records(data: Seq<u8>, payloads: Seq<Seq<u8>>) -> Seq<Block> {
    Seq::new(
        block_count(data.len()),
        |i: int| fastest_record(is_last_block(data.len(), i), chunk(data, i), payloads[i]),
    )
}

/// The blocks cut the input without gap or overlap: each block but the last
/// stands for [`MAX_BLOCK_SIZE`] bytes, the last for the rest, which is at
/// least one byte unless the input is empty.
pub proof fn lemma_chunks_partition(data: Seq<u8>, i: int)
    requires
        0 <= i < block_count(data.len()),
    ensures
        chunk(data, i).len() <= MAX_BLOCK_SIZE,
        chunk(data, i) == data.subrange(
            i * MAX_BLOCK_SIZE,
            i * MAX_BLOCK_SIZE + chunk(data, i).len(),
        ),
        !is_last_block(data.len(), i) ==> chunk(data, i).len() == MAX_BLOCK_SIZE,
        is_last_block(data.len(), i) ==> i * MAX_BLOCK_SIZE + chunk(data, i).len() == data.len(),
        data.len() > 0 ==> chunk(data, i).len() > 0,
{
}

/// Every frame of the encoder begins with the magic number, in little-endian
/// byte order.
pub proof fn lemma_frame_starts_with_magic(data: Seq<u8>, payloads: Seq<Seq<u8>>)
    ensures
        uncompressed_frame(data).take(4) == magic_bytes(),
        fastest_frame(data, payloads).take(4) == magic_bytes(),
        MAGIC_NUM == magic_bytes()[0] + 256 * magic_bytes()[1] + 65536 * magic_bytes()[2] + 16777216
            * magic_bytes()[3],
{
    assert(uncompressed_frame(data).take(4) =~= magic_bytes());
    assert(fastest_frame(data, payloads).take(4) =~= magic_bytes());
}

/// The header of every frame of the encoder announces no content size,
/// several segments, no checksum, no dictionary and a window of
/// [`WINDOW_SIZE`] bytes, whatever follows it.
pub proof fn lemma_frame_header_policy(body: Seq<u8>)
    ensures
        read_frame_header(frame_header_bytes() + body) == Some(
            FrameHeader {
                frame_content_size: None,
                single_segment: false,
                content_checksum: false,
                dictionary_id: None,
                window_size: Some(WINDOW_SIZE as nat),
            },
        ),
{
    let bytes = frame_header_bytes() + body;
    assert(bytes[4] == 0);
    assert(bytes[5] == 0x40);
    assert(frame_header_len(0) == 2);
    lemma2_to64();
    assert(pow2(10 + 0x40nat / 8) == pow2(18));
    assert(0x40nat % 8 == 0);
    assert(window_size_of(0x40) == 262144);
}

/// What follows the frame header of the encoder is read as the blocks.
proof fn lemma_frame_blocks_of_header(body: Seq<u8>)
    ensures
        frame_blocks(frame_header_bytes() + body) == read_blocks(body),
{
    let bytes = frame_header_bytes() + body;
    lemma_frame_header_policy(body);
    assert(bytes.take(4) =~= magic_bytes());
    assert(bytes[4] == 0);
    assert(frame_header_len(0) == 2);
    assert(bytes.skip(6) =~= body);
}

/// A reader finds in an uncompressed frame one raw block for each block of
/// the input: each holds at most [`MAX_BLOCK_SIZE`] bytes, the bytes of its
/// part of the input, and the last block and no other is flagged as last.
pub proof fn lemma_uncompressed_frame_blocks(data: Seq<u8>)
    ensures
        frame_blocks(uncompressed_frame(data)) == Some(raw_records(data)),
        raw_records(data).len() == block_count(data.len()),
        forall|i: int|
            0 <= i < block_count(data.len()) ==> {
                let block = #[trigger] raw_records(data)[i];
                &&& block.block_type == BlockType::Raw
                &&& block.size <= MAX_BLOCK_SIZE
                &&& block.payload == chunk(data, i)
                &&& block.size == chunk(data, i).len()
                &&& (block.last_block <==> i == block_count(data.len()) - 1)
            },
{
    let records = raw_records(data);
    assert(records.map_values(|b: Block| block_bytes(b)) =~= raw_frame_blocks(data));
    lemma_read_blocks_roundtrip(records);
    lemma_frame_blocks_of_header(concat(raw_frame_blocks(data)));
}

/// A reader finds in a frame of the fastest level one block for each block
/// of the input, flagged as last where it is the last: a run-length block
/// for the length of the part where its bytes are all equal, else a
/// compressed block with the block compressor's payload where that is
/// shorter than [`MAX_BLOCK_SIZE`], else a raw block with the part. No
/// block's size is above [`MAX_BLOCK_SIZE`].
pub proof fn lemma_fastest_frame_blocks(data: Seq<u8>, payloads: Seq<Seq<u8>>)
    ensures
        frame_blocks(fastest_frame(data, payloads)) == Some(fastest_records(data, payloads)),
        fastest_records(data, payloads).len() == block_count(data.len()),
        forall|i: int|
            0 <= i < block_count(data.len()) ==> {
                let block = #[trigger] fastest_records(data, payloads)[i];
                &&& block.size <= MAX_BLOCK_SIZE
                &&& block.block_type != BlockType::Reserved
                &&& (block.last_block <==> i == block_count(data.len()) - 1)
            },
{
    let records = fastest_records(data, payloads);
    assert forall|i: int| 0 <= i < records.len() implies block_bytes(#[trigger] records[i])
        == fastest_frame_blocks(data, payloads)[i] by {
        let bytes = chunk(data, i);
        if bytes.len() > 0 && is_uniform(bytes) {
            assert(block_bytes(records[i]) =~= rle_block(
                is_last_block(data.len(), i),
                bytes[0],
                bytes.len(),
            ));
        }
    }
    assert(records.map_values(|b: Block| block_bytes(b)) =~= fastest_frame_blocks(data, payloads));
    lemma_read_blocks_roundtrip(records);
    lemma_frame_blocks_of_header(concat(fastest_frame_blocks(data, payloads)));
}

/// Whether `reader` reads each payload that the fastest level writes for
/// `data` and `payloads` as the bytes of its block: for each block of the
/// input whose bytes are not all equal and whose payload is shorter than
/// [`MAX_BLOCK_SIZE`], after the bytes before the block the payload reads as
/// the bytes of the block.
pub open spec fn reads_payloads(
    data: Seq<u8>,
    payloads: Seq<Seq<u8>>,
    reader: PayloadReader,
) -> bool {
    forall|i: int|
        0 <= i < block_count(data.len()) && !is_uniform(#[trigger] chunk(data, i))
            && payloads[i].len() < MAX_BLOCK_SIZE ==> reader(
            data.take(i * MAX_BLOCK_SIZE),
            payloads[i],
        ) == Some(chunk(data, i))
}

/// The contents of the first `k` blocks are the bytes of the input that
/// these blocks stand for.
proof fn lemma_contents_prefix(data: Seq<u8>, records: Seq<Block>, reader: PayloadReader, k: int)
    requires
        records.len() == block_count(data.len()),
        0 <= k <= records.len(),
        forall|i: int|
            0 <= i < records.len() ==> block_content(
                #[trigger] records[i],
                data.take(i * MAX_BLOCK_SIZE),
                reader,
            ) == Some(chunk(data, i)),
    ensures
        contents(records.take(k), reader) == Some(
            data.take(
                if k * MAX_BLOCK_SIZE <= data.len() {
                    k * MAX_BLOCK_SIZE
                } else {
                    data.len() as int
                },
            ),
        ),
    decreases k,
{
    if k == 0 {
        assert(data.take(0) =~= Seq::<u8>::empty());
    } else {
        lemma_contents_prefix(data, records, reader, k - 1);
        assert(records.take(k).drop_last() =~= records.take(k - 1));
        assert(records.take(k).last() == records[k - 1]);
        let end = if k * MAX_BLOCK_SIZE <= data.len() {
            k * MAX_BLOCK_SIZE
        } else {
            data.len() as int
        };
        assert(data.take((k - 1) * MAX_BLOCK_SIZE) + chunk(data, k - 1) =~= data.take(end));
    }
}

/// Round trip: reading the uncompressed frame of any input, the empty one
/// too, gives the input back, whatever reads compressed payloads.
pub proof fn lemma_uncompressed_roundtrip(data: Seq<u8>, reader: PayloadReader)
    ensures
        decode_frame(uncompressed_frame(data), reader) == Some(data),
{
    lemma_uncompressed_frame_blocks(data);
    let records = raw_records(data);
    lemma_contents_prefix(data, records, reader, records.len() as int);
    assert(records.take(records.len() as int) =~= records);
    assert(data.take(data.len() as int) =~= data);
}

/// Round trip: reading a frame of the fastest level gives the input back,
/// where the payloads of its compressed blocks read as the bytes of their
/// blocks. A frame without compressed blocks reads back whatever the reader.
pub proof fn lemma_fastest_roundtrip(data: Seq<u8>, payloads: Seq<Seq<u8>>, reader: PayloadReader)
    requires
        reads_payloads(data, payloads, reader),
    ensures
        decode_frame(fastest_frame(data, payloads), reader) == Some(data),
{
    lemma_fastest_frame_blocks(data, payloads);
    let records = fastest_records(data, payloads);
    assert forall|i: int| 0 <= i < records.len() implies block_content(
        #[trigger] records[i],
        data.take(i * MAX_BLOCK_SIZE),
        reader,
    ) == Some(chunk(data, i)) by {
        let bytes = chunk(data, i);
        if bytes.len() > 0 && is_uniform(bytes) {
            assert(Seq::new(bytes.len(), |j: int| seq![bytes[0]][0]) =~= bytes);
        } else if bytes.len() > 0 && payloads[i].len() < MAX_BLOCK_SIZE {
            assert(!is_uniform(chunk(data, i)));
        }
    }
    lemma_contents_prefix(data, records, reader, records.len() as int);
    assert(records.take(records.len() as int) =~= records);
    assert(data.take(data.len() as int) =~= data);
}

/// Whether the fastest level writes no compressed block for `data` and
/// `payloads`: every block of the input has equal bytes, or a payload no
/// shorter than a full block.
pub open spec fn no_block_compressed(data: Seq<u8>, payloads: Seq<Seq<u8>>) -> bool {
    forall|i: int|
        0 <= i < block_count(data.len()) ==> is_uniform(#[trigger] chunk(data, i))
            || payloads[i].len() >= MAX_BLOCK_SIZE
}

/// A frame of the fastest level without compressed blocks reads back as the
/// input even where no payload can be read.
pub proof fn lemma_fastest_roundtrip_without_payloads(data: Seq<u8>, payloads: Seq<Seq<u8>>)
    requires
        no_block_compressed(data, payloads),
    ensures
        decode_frame(fastest_frame(data, payloads), no_payload_reader()) == Some(data),
{
    assert forall|i: int|
        0 <= i < block_count(data.len()) && !is_uniform(#[trigger] chunk(data, i))
            && payloads[i].len() < MAX_BLOCK_SIZE implies no_payload_reader()(
        data.take(i * MAX_BLOCK_SIZE),
        payloads[i],
    ) == Some(chunk(data, i)) by {
        assert(is_uniform(chunk(data, i)) || payloads[i].len() >= MAX_BLOCK_SIZE);
    }
    lemma_fastest_roundtrip(data, payloads, no_payload_reader());
}

/// The first `k` blocks of the input, one after the other, are the first
/// bytes of the input.
proof fn lemma_chunks_prefix(data: Seq<u8>, parts: Seq<Seq<u8>>, k: int)
    requires
        parts.len() == block_count(data.len()),
        0 <= k <= parts.len(),
        forall|i: int| 0 <= i < parts.len() ==> #[trigger] parts[i] == chunk(data, i),
    ensures
        concat(parts.take(k)) == data.take(
            if k * MAX_BLOCK_SIZE <= data.len() {
                k * MAX_BLOCK_SIZE
            } else {
                data.len() as int
            },
        ),
    decreases k,
{
    if k == 0 {
        assert(parts.take(0) =~= Seq::<Seq<u8>>::empty());
        assert(data.take(0) =~= Seq::<u8>::empty());
    } else {
        lemma_chunks_prefix(data, parts, k - 1);
        assert(parts.take(k).drop_last() =~= parts.take(k - 1));
        assert(parts.take(k).last() == parts[k - 1]);
        let end = if k * MAX_BLOCK_SIZE <= data.len() {
            k * MAX_BLOCK_SIZE
        } else {
            data.len() as int
        };
        assert(data.take((k - 1) * MAX_BLOCK_SIZE) + chunk(data, k - 1) =~= data.take(end));
    }
}

/// At the fastest level the block compressor is shown every byte of the
/// input once, in order: the bytes of the requests, one request after the
/// other, are the input.
pub proof fn lemma_log_covers_input(data: Seq<u8>, log: Seq<Request>)
    requires
        is_fastest_log(data, log),
    ensures
        concat(log.map_values(|request: Request| request_data(request))) == data,
{
    let parts = log.map_values(|request: Request| request_data(request));
    if data.len() == 0 {
        assert(parts =~= Seq::<Seq<u8>>::empty());
        assert(concat(parts) =~= data);
    } else {
        lemma_chunks_prefix(data, parts, parts.len() as int);
        assert(parts.take(parts.len() as int) =~= parts);
        assert(data.take(data.len() as int) =~= data);
    }
}

/// The frame of an empty input holds one block: a raw block without bytes,
/// flagged as last. This holds at both levels.
pub proof fn lemma_empty_input_frame(payloads: Seq<Seq<u8>>)
    ensures
        frame_blocks(uncompressed_frame(Seq::empty())) == Some(
            seq![raw_record(true, Seq::empty())],
        ),
        fastest_frame(Seq::empty(), payloads) == uncompressed_frame(Seq::empty()),
        uncompressed_frame(Seq::empty()) == frame_header_bytes() + seq![1u8, 0u8, 0u8],
{
    let data = Seq::<u8>::empty();
    lemma_uncompressed_frame_blocks(data);
    assert(chunk(data, 0) =~= data);
    assert(raw_records(data) =~= seq![raw_record(true, data)]);
    assert(fastest_frame_blocks(data, payloads) =~= raw_frame_blocks(data));
    let blocks = raw_frame_blocks(data);
    assert(blocks.drop_last() =~= Seq::<Seq<u8>>::empty());
    assert(concat(blocks.drop_last()) =~= Seq::<u8>::empty());
    assert(concat(blocks) =~= blocks[0]);
    assert(blocks[0] =~= seq![1u8, 0u8, 0u8]);
}

} // verus!
