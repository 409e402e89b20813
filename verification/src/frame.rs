//! The frame encoder: cuts the input into blocks, picks a representation for
//! each, and writes the frame.

use crate::format::block_count;
use crate::format::block_header_bytes;
use crate::format::chunk;
use crate::format::compressed_block;
use crate::format::concat;
use crate::format::fastest_block;
use crate::format::fastest_frame;
use crate::format::fastest_frame_blocks;
use crate::format::frame_header_bytes;
use crate::format::is_last_block;
use crate::format::is_uniform;
use crate::format::raw_block;
use crate::format::raw_frame_blocks;
use crate::format::rle_block;
use crate::format::uncompressed_frame;
use crate::format::BlockType;
use crate::format::MAX_BLOCK_SIZE;
use crate::level::CompressionLevel;
use vstd::prelude::*;
use vstd::slice::slice_subrange;

verus! {

/// What stands before each block of a frame.
#[derive(Debug, Copy, Clone, PartialEq, Eq, Structural)]
pub struct BlockHeader {
    /// Whether the block is the last of its frame.
    pub last_block: bool,
    /// How the block represents its bytes.
    pub block_type: BlockType,
    /// For a run-length block the number of bytes that it stands for, else
    /// the number of bytes of its payload.
    pub block_size: u32,
}

impl BlockHeader {
    /// The three bytes of the header.
    pub open spec fn bytes(self) -> Seq<u8> {
        block_header_bytes(self.last_block, self.block_type, self.block_size as nat)
    }

    /// Appends the three bytes of the header to `output`.
    pub fn serialize(&self, output: &mut Vec<u8>)
        requires
            self.block_type != BlockType::Reserved,
            self.block_size < 0x20_0000,
        ensures
            final(output)@ == old(output)@ + self.bytes(),
    {
        let code: u32 = match self.block_type {
            BlockType::Raw => 0,
            BlockType::RLE => 1,
            BlockType::Compressed => 2,
            BlockType::Reserved => 3,
        };
        let flag: u32 = if self.last_block {
            1
        } else {
            0
        };
        let value: u32 = self.block_size * 8 + code * 2 + flag;
        output.push((value % 256) as u8);
        output.push(((value / 256) % 256) as u8);
        output.push(((value / 65536) % 256) as u8);
        assert(output@ =~= old(output)@ + self.bytes());
    }
}

/// Appends the header of a frame to `output`.
pub fn write_frame_header(output: &mut Vec<u8>)
    ensures
        final(output)@ == old(output)@ + frame_header_bytes(),
{
    output.push(0x28);
    output.push(0xB5);
    output.push(0x2F);
    output.push(0xFD);
    output.push(0x00);
    output.push(0x40);
    assert(output@ =~= old(output)@ + frame_header_bytes());
}

/// Appends `data` to `output` as it is: the payload of a raw block.
pub fn compress_raw_block(data: &[u8], output: &mut Vec<u8>)
    ensures
        final(output)@ == old(output)@ + data@,
{
    output.extend_from_slice(data);
    assert(output@ =~= old(output)@ + data@);
}

/// Appends a raw block with the bytes of `data` to `output`.
pub fn write_raw_block(last_block: bool, data: &[u8], output: &mut Vec<u8>)
    requires
        data@.len() <= MAX_BLOCK_SIZE,
    ensures
        final(output)@ == old(output)@ + raw_block(last_block, data@),
{
    let header = BlockHeader {
        last_block,
        block_type: BlockType::Raw,
        block_size: data.len() as u32,
    };
    header.serialize(output);
    compress_raw_block(data, output);
    assert(output@ =~= old(output)@ + raw_block(last_block, data@));
}

/// Appends a run-length block to `output` that stands for the bytes of
/// `data`, which are all equal.
pub fn write_rle_block(last_block: bool, data: &[u8], output: &mut Vec<u8>)
    requires
        0 < data@.len() <= MAX_BLOCK_SIZE,
    ensures
        final(output)@ == old(output)@ + rle_block(last_block, data@[0], data@.len()),
{
    let header = BlockHeader {
        last_block,
        block_type: BlockType::RLE,
        block_size: data.len() as u32,
    };
    header.serialize(output);
    output.push(data[0]);
    assert(output@ =~= old(output)@ + rle_block(last_block, data@[0], data@.len()));
}

/// Appends to `output` the block for `data` of which the block compressor
/// made `compressed`: a compressed block with `compressed` as its payload
/// where that is shorter than [`MAX_BLOCK_SIZE`], else a raw block with
/// `data`.
pub fn write_compressed_or_raw_block(
    last_block: bool,
    data: &[u8],
    compressed: Vec<u8>,
    output: &mut Vec<u8>,
)
    requires
        data@.len() <= MAX_BLOCK_SIZE,
    ensures
        final(output)@ == old(output)@ + (if compressed@.len() >= MAX_BLOCK_SIZE {
            raw_block(last_block, data@)
        } else {
            compressed_block(last_block, compressed@)
        }),
{
    if compressed.len() >= MAX_BLOCK_SIZE {
        write_raw_block(last_block, data, output);
    } else {
        let header = BlockHeader {
            last_block,
            block_type: BlockType::Compressed,
            block_size: compressed.len() as u32,
        };
        header.serialize(output);
        output.extend_from_slice(compressed.as_slice());
        assert(output@ =~= old(output)@ + compressed_block(last_block, compressed@));
    }
}

/// Whether all bytes of `data` are equal to the first.
pub fn all_bytes_equal(data: &[u8]) -> (r: bool)
    ensures
        r == is_uniform(data@),
{
    let mut i: usize = 0;
    while i < data.len()
        invariant
            i <= data@.len(),
            forall|j: int| 0 <= j < i ==> #[trigger] data@[j] == data@.first(),
        decreases data@.len() - i,
    {
        if data[i] != data[0] {
            return false;
        }
        i += 1;
    }
    true
}

/// The block compressor that a frame encoder drives: it finds repeated byte
/// sequences and codes a block. It has to be shown every byte of the input
/// once, in order, and keeps what it saw as history for later blocks.
pub trait BlockCompressor {
    /// Takes `data` into the history without looking for matches in it.
    fn add_data_no_matching(&mut self, data: &[u8]);

    /// Takes `data` into the history and returns the payload of a compressed
    /// block that stands for it.
    fn compress_block(&mut self, data: &[u8]) -> Vec<u8>;
}

/// What a block compressor was asked for one block, and what it answered.
pub enum Request {
    /// It was shown the bytes, to take into its history only.
    History { data: Seq<u8> },
    /// It was asked to compress the bytes, and answered with the payload.
    Compress { data: Seq<u8>, payload: Seq<u8> },
}

/// The bytes that a request showed the block compressor.
pub open spec fn request_data(request: Request) -> Seq<u8> {
    match request {
        Request::History { data } => data,
        Request::Compress { data, payload } => data,
    }
}

/// The payload that the block compressor answered a request with; none
/// where it was asked for none.
pub open spec fn request_payload(request: Request) -> Seq<u8> {
    match request {
        Request::History { data } => Seq::empty(),
        Request::Compress { data, payload } => payload,
    }
}

/// The payloads of the requests, one for each.
pub open spec fn payloads_of(log: Seq<Request>) -> Seq<Seq<u8>> {
    log.map_values(|request: Request| request_payload(request))
}

/// Whether `log` holds what the fastest level asks of the block compressor
/// for `data`: nothing where there are no bytes, else one request for each
/// block of the input, in order, with the bytes of the block: to take them
/// into its history where they are all equal, and else to compress them.
pub open spec fn is_fastest_log(data: Seq<u8>, log: Seq<Request>) -> bool {
    if data.len() == 0 {
        log.len() == 0
    } else {
        &&& log.len() == block_count(data.len())
        &&& forall|i: int|
            0 <= i < log.len() ==> request_data(#[trigger] log[i]) == chunk(data, i) && (
            log[i] is History <==> is_uniform(chunk(data, i)))
    }
}

/// A block compressor together with the log of what it was asked.
///
/// The frame encoder reaches its block compressor through this type alone,
/// so that what it asked can be told from the log.
pub struct Logged<M: BlockCompressor> {
    compressor: M,
    log: Ghost<Seq<Request>>,
}

impl<M: BlockCompressor> Logged<M> {
    /// The requests so far, the first one first.
    pub closed spec fn requests(&self) -> Seq<Request> {
        self.log@
    }

    /// The block compressor as it stands.
    pub closed spec fn inner(&self) -> M {
        self.compressor
    }

    /// Takes `compressor` with an empty log.
    pub fn new(compressor: M) -> (r: Logged<M>)
        ensures
            r.requests() == Seq::<Request>::empty(),
            r.inner() == compressor,
    {
        Logged { compressor, log: Ghost(Seq::empty()) }
    }

    /// Gives the block compressor back, as it stands after the requests.
    pub fn into_inner(self) -> (compressor: M)
        ensures
            compressor == self.inner(),
    {
        self.compressor
    }

    /// The block compressor, as it stands after the requests.
    pub fn get_ref(&self) -> (compressor: &M)
        ensures
            *compressor == self.inner(),
    {
        &self.compressor
    }

    /// Has the block compressor take `data` into its history.
    pub fn add_data_no_matching(&mut self, data: &[u8])
        ensures
            final(self).requests() == old(self).requests().push(
                Request::History { data: data@ },
            ),
    {
        self.compressor.add_data_no_matching(data);
        self.log = Ghost(self.log@.push(Request::History { data: data@ }));
    }

    /// Has the block compressor compress `data`, and returns its payload.
    pub fn compress_block(&mut self, data: &[u8]) -> (payload: Vec<u8>)
        ensures
            final(self).requests() == old(self).requests().push(
                Request::Compress { data: data@, payload: payload@ },
            ),
    {
        let payload = self.compressor.compress_block(data);
        self.log = Ghost(self.log@.push(Request::Compress { data: data@, payload: payload@ }));
        payload
    }
}

/// Why a frame was not written.
#[derive(Debug, Copy, Clone, PartialEq, Eq, Structural)]
pub enum CompressError {
    /// No encoder exists for this level.
    UnsupportedLevel(CompressionLevel),
}

/// Whether an encoder exists for the canonical level `level`.
pub open spec fn is_supported(level: CompressionLevel) -> bool {
    level == CompressionLevel::Uncompressed || level == CompressionLevel::Fastest
}

/// Compresses a buffer of bytes into one frame.
///
/// A compressor is made of the input, of a buffer that the frame is appended
/// to, and of a level. [`FrameCompressor::compress`] then writes the frame.
pub struct FrameCompressor<'a> {
    uncompressed_data: &'a [u8],
    compressed_data: Vec<u8>,
    compression_level: CompressionLevel,
}

impl<'a> FrameCompressor<'a> {
    /// The bytes to compress.
    pub closed spec fn input(&self) -> Seq<u8> {
        self.uncompressed_data@
    }

    /// The bytes written so far.
    pub closed spec fn output(&self) -> Seq<u8> {
        self.compressed_data@
    }

    /// The level, in canonical form.
    pub closed spec fn level(&self) -> CompressionLevel {
        self.compression_level
    }

    /// Makes a compressor that reads `uncompressed_data` and appends to
    /// `compressed_data`. Nothing is written yet.
    pub fn new(
        uncompressed_data: &'a [u8],
        compressed_data: Vec<u8>,
        compression_level: CompressionLevel,
    ) -> (r: FrameCompressor<'a>)
        ensures
            r.input() == uncompressed_data@,
            r.output() == compressed_data@,
            r.level() == compression_level.normalized(),
            r.level().is_normal(),
    {
        let mut compression_level = compression_level;
        compression_level.normalize_mut();
        FrameCompressor { uncompressed_data, compressed_data, compression_level }
    }

    /// The bytes written so far.
    pub fn compressed_data(&self) -> (r: &Vec<u8>)
        ensures
            r@ == self.output(),
    {
        &self.compressed_data
    }

    /// Gives up the compressor for the bytes written.
    pub fn into_compressed_data(self) -> (r: Vec<u8>)
        ensures
            r@ == self.output(),
    {
        self.compressed_data
    }

    /// Appends the frame with the input in raw blocks to the output.
    fn compress_uncompressed(&mut self)
        ensures
            final(self).input() == old(self).input(),
            final(self).level() == old(self).level(),
            final(self).output() == old(self).output() + uncompressed_frame(old(self).input()),
    {
        write_frame_header(&mut self.compressed_data);
        let len = self.uncompressed_data.len();
        let ghost blocks = raw_frame_blocks(self.uncompressed_data@);
        let ghost start = self.compressed_data@;
        if len == 0 {
            write_raw_block(true, self.uncompressed_data, &mut self.compressed_data);
            proof {
                assert(chunk(self.uncompressed_data@, 0) =~= self.uncompressed_data@);
                assert(blocks.drop_last() =~= Seq::<Seq<u8>>::empty());
                assert(concat(blocks.drop_last()) =~= Seq::<u8>::empty());
                assert(concat(blocks) =~= blocks[0]);
            }
            return ;
        }
        let mut index: usize = 0;
        let ghost mut done: int = 0;
        assert(concat(blocks.take(0)) =~= Seq::<u8>::empty());
        while index < len
            invariant
                len == self.uncompressed_data@.len(),
                len > 0,
                self.uncompressed_data@ == old(self).uncompressed_data@,
                self.compression_level == old(self).compression_level,
                blocks == raw_frame_blocks(self.uncompressed_data@),
                0 <= done <= blocks.len(),
                index <= len,
                index == len <==> done == blocks.len(),
                index < len ==> index == done * MAX_BLOCK_SIZE,
                self.compressed_data@ == start + concat(blocks.take(done)),
            decreases len - index,
        {
            let last_block = len - index <= MAX_BLOCK_SIZE;
            let block_size = if last_block {
                len - index
            } else {
                MAX_BLOCK_SIZE
            };
            let block = slice_subrange(self.uncompressed_data, index, index + block_size);
            write_raw_block(last_block, block, &mut self.compressed_data);
            proof {
                assert(block@ == chunk(self.uncompressed_data@, done));
                assert(last_block == is_last_block(len as nat, done));
                assert(blocks.take(done + 1).drop_last() =~= blocks.take(done));
                assert(self.compressed_data@ =~= start + concat(blocks.take(done + 1)));
                done = done + 1;
            }
            index += block_size;
        }
        assert(blocks.take(done) =~= blocks);
        assert(self.compressed_data@ =~= old(self).compressed_data@ + uncompressed_frame(
            old(self).uncompressed_data@,
        ));
    }

    /// Appends the frame of the fastest level to the output: a run-length
    /// block for each block of equal bytes, and for each other block what
    /// `matcher` makes of it, or the block itself where that is no shorter
    /// than a full block.
    fn compress_fastest<M: BlockCompressor>(&mut self, matcher: &mut Logged<M>)
        ensures
            final(self).input() == old(self).input(),
            final(self).level() == old(self).level(),
            old(matcher).requests().len() <= final(matcher).requests().len(),
            final(matcher).requests().len() == old(matcher).requests().len()
                ==> final(matcher).inner() == old(matcher).inner(),
            final(matcher).requests().take(old(matcher).requests().len() as int) == old(
                matcher,
            ).requests(),
            is_fastest_log(
                old(self).input(),
                final(matcher).requests().skip(old(matcher).requests().len() as int),
            ),
            final(self).output() == old(self).output() + fastest_frame(
                old(self).input(),
                payloads_of(final(matcher).requests().skip(old(matcher).requests().len() as int)),
            ),
    {
        write_frame_header(&mut self.compressed_data);
        let len = self.uncompressed_data.len();
        let ghost data = self.uncompressed_data@;
        let ghost start = self.compressed_data@;
        let ghost asked = matcher.requests();
        if len == 0 {
            write_raw_block(true, self.uncompressed_data, &mut self.compressed_data);
            proof {
                let log = matcher.requests().skip(asked.len() as int);
                let blocks = fastest_frame_blocks(data, payloads_of(log));
                assert(matcher.requests().take(asked.len() as int) =~= asked);
                assert(chunk(data, 0) =~= data);
                assert(blocks.drop_last() =~= Seq::<Seq<u8>>::empty());
                assert(concat(blocks.drop_last()) =~= Seq::<u8>::empty());
                assert(concat(blocks) =~= blocks[0]);
                assert(self.compressed_data@ =~= old(self).compressed_data@ + fastest_frame(
                    data,
                    payloads_of(log),
                ));
            }
            return ;
        }
        let mut index: usize = 0;
        let ghost mut log: Seq<Request> = Seq::empty();
        let ghost count = block_count(len as nat);
        proof {
            assert(matcher.requests() =~= asked + log);
            assert(concat(fastest_frame_blocks(data, payloads_of(log)).take(0))
                =~= Seq::<u8>::empty());
        }
        while index < len
            invariant
                len == data.len(),
                len > 0,
                count == block_count(len as nat),
                self.uncompressed_data@ == data,
                self.compression_level == old(self).compression_level,
                matcher.requests() == asked + log,
                log.len() <= count,
                index <= len,
                index == len <==> log.len() == count,
                index < len ==> index == log.len() * MAX_BLOCK_SIZE,
                forall|i: int|
                    0 <= i < log.len() ==> request_data(#[trigger] log[i]) == chunk(data, i) && (
                    log[i] is History <==> is_uniform(chunk(data, i))),
                self.compressed_data@ == start + concat(
                    fastest_frame_blocks(data, payloads_of(log)).take(log.len() as int),
                ),
            decreases len - index,
        {
            let last_block = len - index <= MAX_BLOCK_SIZE;
            let block_size = if last_block {
                len - index
            } else {
                MAX_BLOCK_SIZE
            };
            let block = slice_subrange(self.uncompressed_data, index, index + block_size);
            let ghost done = log.len() as int;
            let ghost request: Request;
            if all_bytes_equal(block) {
                matcher.add_data_no_matching(block);
                write_rle_block(last_block, block, &mut self.compressed_data);
                proof {
                    request = Request::History { data: block@ };
                }
            } else {
                let compressed = matcher.compress_block(block);
                proof {
                    request = Request::Compress { data: block@, payload: compressed@ };
                }
                write_compressed_or_raw_block(
                    last_block,
                    block,
                    compressed,
                    &mut self.compressed_data,
                );
            }
            proof {
                let before = fastest_frame_blocks(data, payloads_of(log));
                let after = fastest_frame_blocks(data, payloads_of(log.push(request)));
                assert(block@ == chunk(data, done));
                assert(last_block == is_last_block(len as nat, done));
                assert(payloads_of(log.push(request))[done] == request_payload(request));
                assert(after[done] == fastest_block(last_block, block@, request_payload(request)));
                assert forall|i: int| 0 <= i < done implies after[i] == before[i] by {
                    assert(payloads_of(log.push(request))[i] == payloads_of(log)[i]);
                }
                assert(after.take(done + 1).drop_last() =~= before.take(done));
                assert(matcher.requests() =~= asked + log.push(request));
                log = log.push(request);
            }
            index += block_size;
        }
        proof {
            let blocks = fastest_frame_blocks(data, payloads_of(log));
            assert(blocks.take(log.len() as int) =~= blocks);
            assert(matcher.requests().skip(asked.len() as int) =~= log);
            assert(matcher.requests().take(asked.len() as int) =~= asked);
            assert(self.compressed_data@ =~= old(self).compressed_data@ + fastest_frame(
                data,
                payloads_of(log),
            ));
        }
    }

    /// Writes the frame for the input and appends it to the output.
    ///
    /// At the level [`CompressionLevel::Uncompressed`] the frame holds the
    /// input in raw blocks, and `matcher` is asked nothing. At
    /// [`CompressionLevel::Fastest`] each block of equal bytes becomes a
    /// run-length block, which `matcher` takes into its history, and each
    /// other block goes to `matcher`, whose payload is written as a
    /// compressed block, or the block itself as a raw block where the payload
    /// is no shorter than a full block: `matcher` is shown every byte of the
    /// input once, in order ([`is_fastest_log`]). For every other level
    /// nothing is written or asked, and the level is handed back as
    /// unsupported. Where nothing is asked, the block compressor is as it
    /// was.
    pub fn compress<M: BlockCompressor>(&mut self, matcher: &mut Logged<M>) -> (r: Result<
        (),
        CompressError,
    >)
        ensures
            final(self).input() == old(self).input(),
            final(self).level() == old(self).level(),
            r.is_ok() <==> is_supported(old(self).level()),
            old(self).level() == CompressionLevel::Uncompressed ==> final(self).output() == old(
                self,
            ).output() + uncompressed_frame(old(self).input()),
            old(self).level() != CompressionLevel::Fastest ==> final(matcher).requests() == old(
                matcher,
            ).requests(),
            final(matcher).requests().len() == old(matcher).requests().len()
                ==> final(matcher).inner() == old(matcher).inner(),
            old(matcher).requests().len() <= final(matcher).requests().len(),
            final(matcher).requests().take(old(matcher).requests().len() as int) == old(
                matcher,
            ).requests(),
            old(self).level() == CompressionLevel::Fastest ==> is_fastest_log(
                old(self).input(),
                final(matcher).requests().skip(old(matcher).requests().len() as int),
            ) && final(self).output() == old(self).output() + fastest_frame(
                old(self).input(),
                payloads_of(final(matcher).requests().skip(old(matcher).requests().len() as int)),
            ),
            !is_supported(old(self).level()) ==> final(self).output() == old(self).output() && r
                == Err::<(), CompressError>(CompressError::UnsupportedLevel(old(self).level())),
    {
        proof {
            assert(matcher.requests().take(matcher.requests().len() as int)
                =~= matcher.requests());
        }
        match self.compression_level {
            CompressionLevel::Uncompressed => {
                self.compress_uncompressed();
                Ok(())
            },
            CompressionLevel::Fastest => {
                self.compress_fastest(matcher);
                Ok(())
            },
            level => Err(CompressError::UnsupportedLevel(level)),
        }
    }
}

} // verus!
