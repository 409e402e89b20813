use zstd_encoder::format::BlockType;
use zstd_encoder::format::MAGIC_NUM;
use zstd_encoder::format::MAX_BLOCK_SIZE;
use zstd_encoder::frame::all_bytes_equal;
use zstd_encoder::frame::compress_raw_block;
use zstd_encoder::frame::write_compressed_or_raw_block;
use zstd_encoder::frame::write_frame_header;
use zstd_encoder::frame::write_raw_block;
use zstd_encoder::frame::write_rle_block;
use zstd_encoder::frame::BlockCompressor;
use zstd_encoder::frame::BlockHeader;
use zstd_encoder::frame::CompressError;
use zstd_encoder::frame::FrameCompressor;
use zstd_encoder::frame::Logged;
use zstd_encoder::level::CompressionLevel;
use zstd_encoder::level::ZstdLevel;

/// A block compressor that keeps what it is shown and answers each block
/// with a payload of a fixed length.
struct Recorder {
    history: Vec<u8>,
    searched: Vec<usize>,
    payload_len: usize,
}

impl Recorder {
    fn new(payload_len: usize) -> Recorder {
        Recorder {
            history: Vec::new(),
            searched: Vec::new(),
            payload_len,
        }
    }
}

impl BlockCompressor for Recorder {
    fn add_data_no_matching(&mut self, data: &[u8]) {
        self.history.extend_from_slice(data);
    }

    fn compress_block(&mut self, data: &[u8]) -> Vec<u8> {
        self.history.extend_from_slice(data);
        self.searched.push(data.len());
        vec![0xA5; self.payload_len]
    }
}

/// One block of a frame, as read back.
struct ReadBlock {
    last: bool,
    kind: u32,
    size: usize,
    payload: Vec<u8>,
}

/// Reads the blocks of a frame whose header is the six bytes that the
/// encoder writes.
fn read_frame(bytes: &[u8]) -> Vec<ReadBlock> {
    assert!(bytes.len() >= 6);
    assert_eq!(&bytes[0..4], &MAGIC_NUM.to_le_bytes());
    assert_eq!(bytes[4], 0x00);
    assert_eq!(bytes[5], 0x40);
    let mut blocks = Vec::new();
    let mut at = 6;
    loop {
        assert!(bytes.len() >= at + 3);
        let value =
            bytes[at] as u32 | (bytes[at + 1] as u32) << 8 | (bytes[at + 2] as u32) << 16;
        let last = value & 1 == 1;
        let kind = (value >> 1) & 3;
        let size = (value >> 3) as usize;
        let payload_len = match kind {
            0 => size,
            1 => 1,
            2 => size,
            _ => panic!("reserved block type"),
        };
        assert!(bytes.len() >= at + 3 + payload_len);
        let payload = bytes[at + 3..at + 3 + payload_len].to_vec();
        at += 3 + payload_len;
        blocks.push(ReadBlock {
            last,
            kind,
            size,
            payload,
        });
        if last {
            break;
        }
    }
    assert_eq!(at, bytes.len());
    blocks
}

/// Decodes a frame of raw and run-length blocks.
fn decode_all_to_vec(bytes: &[u8], decoded: &mut Vec<u8>) -> Result<(), String> {
    for block in read_frame(bytes) {
        match block.kind {
            0 => decoded.extend_from_slice(&block.payload),
            1 => decoded.extend(std::iter::repeat(block.payload[0]).take(block.size)),
            _ => return Err(format!("cannot decode a block of type {}", block.kind)),
        }
    }
    Ok(())
}

fn compress_with(data: &[u8], level: CompressionLevel, matcher: &mut Recorder) -> Vec<u8> {
    let mut logged = Logged::new(std::mem::replace(matcher, Recorder::new(0)));
    let mut compressor = FrameCompressor::new(data, Vec::new(), level);
    compressor.compress(&mut logged).unwrap();
    *matcher = logged.into_inner();
    compressor.into_compressed_data()
}

#[test]
fn frame_starts_with_magic_num() {
    let mock_data = [1_u8, 2, 3].as_slice();
    let output: Vec<u8> = Vec::new();
    let mut compressor =
        FrameCompressor::new(mock_data, output, CompressionLevel::Uncompressed);
    compressor.compress(&mut Logged::new(Recorder::new(0))).unwrap();
    let output = compressor.into_compressed_data();
    assert!(output.starts_with(&MAGIC_NUM.to_le_bytes()));
}

#[test]
fn very_simple_raw_compress() {
    let mock_data = [1_u8, 2, 3].as_slice();
    let output: Vec<u8> = Vec::new();
    let mut compressor =
        FrameCompressor::new(mock_data, output, CompressionLevel::Uncompressed);
    compressor.compress(&mut Logged::new(Recorder::new(0))).unwrap();
}

#[test]
fn very_simple_compress() {
    let mut mock_data = vec![0; 1 << 17];
    mock_data.extend(vec![1; (1 << 17) - 1]);
    mock_data.extend(vec![2; (1 << 18) - 1]);
    mock_data.extend(vec![2; 1 << 17]);
    mock_data.extend(vec![3; (1 << 17) - 1]);
    let output: Vec<u8> = Vec::new();
    let mut compressor =
        FrameCompressor::new(mock_data.as_slice(), output, CompressionLevel::Uncompressed);
    compressor.compress(&mut Logged::new(Recorder::new(0))).unwrap();
    let output = compressor.into_compressed_data();

    let mut decoded = Vec::with_capacity(mock_data.len());
    decode_all_to_vec(&output, &mut decoded).unwrap();
    assert_eq!(mock_data, decoded);

    let mut decoded = Vec::new();
    zstd::stream::copy_decode(output.as_slice(), &mut decoded).unwrap();
    assert_eq!(mock_data, decoded);
}

#[test]
fn rle_compress() {
    let mock_data = vec![0; 1 << 19];
    let output: Vec<u8> = Vec::new();
    let mut compressor =
        FrameCompressor::new(mock_data.as_slice(), output, CompressionLevel::Uncompressed);
    compressor.compress(&mut Logged::new(Recorder::new(0))).unwrap();
    let output = compressor.into_compressed_data();

    let mut decoded = Vec::with_capacity(mock_data.len());
    decode_all_to_vec(&output, &mut decoded).unwrap();
    assert_eq!(mock_data, decoded);
}

#[test]
fn aaa_compress() {
    let mock_data = vec![0, 1, 3, 4, 5];
    let output: Vec<u8> = Vec::new();
    let mut compressor =
        FrameCompressor::new(mock_data.as_slice(), output, CompressionLevel::Uncompressed);
    compressor.compress(&mut Logged::new(Recorder::new(0))).unwrap();
    let output = compressor.into_compressed_data();

    let mut decoded = Vec::with_capacity(mock_data.len());
    decode_all_to_vec(&output, &mut decoded).unwrap();
    assert_eq!(mock_data, decoded);

    let mut decoded = Vec::new();
    zstd::stream::copy_decode(output.as_slice(), &mut decoded).unwrap();
    assert_eq!(mock_data, decoded);
}

#[test]
fn small_frame_bytes() {
    let output = compress_with(&[0, 1, 3, 4, 5], CompressionLevel::Uncompressed, &mut Recorder::new(0));
    assert_eq!(
        output,
        vec![0x28, 0xB5, 0x2F, 0xFD, 0x00, 0x40, 0x29, 0x00, 0x00, 0, 1, 3, 4, 5]
    );
}

#[test]
fn empty_input_is_one_last_raw_block() {
    for level in [CompressionLevel::Uncompressed, CompressionLevel::Fastest] {
        let mut matcher = Recorder::new(10);
        let output = compress_with(&[], level, &mut matcher);
        assert_eq!(output, vec![0x28, 0xB5, 0x2F, 0xFD, 0x00, 0x40, 0x01, 0x00, 0x00]);
        let blocks = read_frame(&output);
        assert_eq!(blocks.len(), 1);
        assert!(blocks[0].last);
        assert_eq!(blocks[0].kind, 0);
        assert_eq!(blocks[0].size, 0);
        assert!(matcher.history.is_empty());
    }
}

#[test]
fn compress_appends_to_what_the_sink_holds() {
    let mut compressor =
        FrameCompressor::new(&[7, 8], vec![1, 2, 3], CompressionLevel::Uncompressed);
    compressor.compress(&mut Logged::new(Recorder::new(0))).unwrap();
    assert_eq!(
        compressor.compressed_data(),
        &vec![1, 2, 3, 0x28, 0xB5, 0x2F, 0xFD, 0x00, 0x40, 0x11, 0x00, 0x00, 7, 8]
    );
}

#[test]
fn blocks_partition_the_input() {
    for len in [
        1,
        MAX_BLOCK_SIZE - 1,
        MAX_BLOCK_SIZE,
        MAX_BLOCK_SIZE + 1,
        2 * MAX_BLOCK_SIZE,
        2 * MAX_BLOCK_SIZE + 5,
    ] {
        let data: Vec<u8> = (0..len).map(|i| (i % 251) as u8).collect();
        let output = compress_with(&data, CompressionLevel::Uncompressed, &mut Recorder::new(0));
        let blocks = read_frame(&output);
        assert_eq!(blocks.len(), (len + MAX_BLOCK_SIZE - 1) / MAX_BLOCK_SIZE);
        let mut total = 0;
        for (i, block) in blocks.iter().enumerate() {
            assert_eq!(block.kind, 0);
            assert!(block.size <= MAX_BLOCK_SIZE);
            assert_eq!(block.last, i == blocks.len() - 1);
            if !block.last {
                assert_eq!(block.size, MAX_BLOCK_SIZE);
            }
            assert_eq!(&data[total..total + block.size], block.payload.as_slice());
            total += block.size;
        }
        assert_eq!(total, len);
        assert_eq!(output.len(), 6 + 3 * blocks.len() + len);
    }
}

#[test]
fn uncompressed_round_trip() {
    for len in [0usize, 1, 2, 1000, MAX_BLOCK_SIZE, MAX_BLOCK_SIZE + 1, 300_000] {
        let data: Vec<u8> = (0..len).map(|i| (i * 7 % 256) as u8).collect();
        let output = compress_with(&data, CompressionLevel::Uncompressed, &mut Recorder::new(0));
        let mut decoded = Vec::new();
        decode_all_to_vec(&output, &mut decoded).unwrap();
        assert_eq!(data, decoded);
    }
}

#[test]
fn uniform_blocks_become_run_length_blocks() {
    let mock_data = vec![0u8; 1 << 19];
    let mut matcher = Recorder::new(10);
    let output = compress_with(&mock_data, CompressionLevel::Fastest, &mut matcher);
    let blocks = read_frame(&output);
    assert_eq!(blocks.len(), 5);
    for (i, block) in blocks.iter().enumerate() {
        assert_eq!(block.kind, 1);
        assert_eq!(block.payload, vec![0u8]);
        assert_eq!(block.last, i == 4);
    }
    assert_eq!(blocks[0].size, MAX_BLOCK_SIZE);
    assert_eq!(blocks[4].size, (1 << 19) - 4 * MAX_BLOCK_SIZE);
    assert_eq!(output.len(), 6 + 5 * 4);
    let mut decoded = Vec::new();
    decode_all_to_vec(&output, &mut decoded).unwrap();
    assert_eq!(mock_data, decoded);
    // The matcher saw every byte once, in order, and searched none.
    assert_eq!(matcher.history, mock_data);
    assert!(matcher.searched.is_empty());
}

#[test]
fn fastest_writes_the_payload_of_the_block_compressor() {
    let data = vec![1u8, 2, 3, 4];
    let mut matcher = Recorder::new(3);
    let output = compress_with(&data, CompressionLevel::Fastest, &mut matcher);
    // Last block, compressed, three bytes: (3 << 3) | (2 << 1) | 1.
    assert_eq!(
        output,
        vec![0x28, 0xB5, 0x2F, 0xFD, 0x00, 0x40, 0x1D, 0x00, 0x00, 0xA5, 0xA5, 0xA5]
    );
    assert_eq!(matcher.history, data);
    assert_eq!(matcher.searched, vec![4]);
}

#[test]
fn fastest_falls_back_to_raw_for_a_long_payload() {
    let data = vec![1u8, 2, 3, 4];
    for payload_len in [MAX_BLOCK_SIZE, MAX_BLOCK_SIZE + 1] {
        let mut matcher = Recorder::new(payload_len);
        let output = compress_with(&data, CompressionLevel::Fastest, &mut matcher);
        assert_eq!(
            output,
            vec![0x28, 0xB5, 0x2F, 0xFD, 0x00, 0x40, 0x21, 0x00, 0x00, 1, 2, 3, 4]
        );
    }
    let mut matcher = Recorder::new(MAX_BLOCK_SIZE - 1);
    let output = compress_with(&data, CompressionLevel::Fastest, &mut matcher);
    let blocks = read_frame(&output);
    assert_eq!(blocks.len(), 1);
    assert_eq!(blocks[0].kind, 2);
    assert_eq!(blocks[0].size, MAX_BLOCK_SIZE - 1);
}

#[test]
fn fastest_shows_the_matcher_every_byte_in_order() {
    let mut data = vec![9u8; MAX_BLOCK_SIZE];
    data.extend((0..MAX_BLOCK_SIZE).map(|i| (i % 13) as u8));
    data.extend(vec![5u8; 100]);
    let mut matcher = Recorder::new(17);
    let output = compress_with(&data, CompressionLevel::Fastest, &mut matcher);
    let blocks = read_frame(&output);
    assert_eq!(blocks.len(), 3);
    assert_eq!((blocks[0].kind, blocks[0].size, blocks[0].last), (1, MAX_BLOCK_SIZE, false));
    assert_eq!((blocks[1].kind, blocks[1].size, blocks[1].last), (2, 17, false));
    assert_eq!((blocks[2].kind, blocks[2].size, blocks[2].last), (1, 100, true));
    assert_eq!(matcher.history, data);
    assert_eq!(matcher.searched, vec![MAX_BLOCK_SIZE]);
}

#[test]
fn unsupported_levels_write_nothing() {
    let seven = ZstdLevel::new(5).unwrap();
    for level in [
        CompressionLevel::Default,
        CompressionLevel::Better,
        CompressionLevel::Best,
        CompressionLevel::Other(seven),
        CompressionLevel::Other(ZstdLevel::new(3).unwrap()),
    ] {
        let mut compressor = FrameCompressor::new(&[1, 2, 3], vec![42], level);
        let mut matcher = Logged::new(Recorder::new(1));
        let result = compressor.compress(&mut matcher);
        assert_eq!(result, Err(CompressError::UnsupportedLevel(level.normalize())));
        assert_eq!(compressor.into_compressed_data(), vec![42]);
        assert!(matcher.get_ref().history.is_empty());
    }
}

#[test]
fn numeric_levels_of_presets_are_the_presets() {
    let zero = CompressionLevel::Other(ZstdLevel::new(0).unwrap());
    let output = compress_with(&[1, 2, 3], zero, &mut Recorder::new(0));
    assert_eq!(
        output,
        compress_with(&[1, 2, 3], CompressionLevel::Uncompressed, &mut Recorder::new(0))
    );
    let one = CompressionLevel::Other(ZstdLevel::new(1).unwrap());
    let output = compress_with(&[1, 2, 3], one, &mut Recorder::new(2));
    assert_eq!(
        output,
        compress_with(&[1, 2, 3], CompressionLevel::Fastest, &mut Recorder::new(2))
    );
}

#[test]
fn block_header_bytes() {
    let mut output = Vec::new();
    let header = BlockHeader {
        last_block: true,
        block_type: BlockType::Raw,
        block_size: 5,
    };
    header.serialize(&mut output);
    assert_eq!(output, vec![0x29, 0x00, 0x00]);

    let mut output = vec![0xFF];
    let header = BlockHeader {
        last_block: false,
        block_type: BlockType::RLE,
        block_size: MAX_BLOCK_SIZE as u32,
    };
    header.serialize(&mut output);
    // 131052 << 3 | 1 << 1 = 0x0FFF62.
    assert_eq!(output, vec![0xFF, 0x62, 0xFF, 0x0F]);

    let mut output = Vec::new();
    let header = BlockHeader {
        last_block: true,
        block_type: BlockType::Compressed,
        block_size: 0x1F_FFFF,
    };
    header.serialize(&mut output);
    assert_eq!(output, vec![0xFD, 0xFF, 0xFF]);
}

#[test]
fn block_writers() {
    let mut output = Vec::new();
    write_frame_header(&mut output);
    assert_eq!(output, vec![0x28, 0xB5, 0x2F, 0xFD, 0x00, 0x40]);

    let mut output = vec![1];
    compress_raw_block(&[2, 3], &mut output);
    assert_eq!(output, vec![1, 2, 3]);

    let mut output = Vec::new();
    write_raw_block(false, &[9, 8], &mut output);
    assert_eq!(output, vec![0x10, 0x00, 0x00, 9, 8]);

    let mut output = Vec::new();
    write_rle_block(true, &[7, 7, 7], &mut output);
    assert_eq!(output, vec![0x1B, 0x00, 0x00, 7]);

    let mut output = Vec::new();
    write_compressed_or_raw_block(false, &[1, 2], vec![5], &mut output);
    assert_eq!(output, vec![0x0C, 0x00, 0x00, 5]);

    let mut output = Vec::new();
    write_compressed_or_raw_block(true, &[1, 2], vec![0; MAX_BLOCK_SIZE], &mut output);
    assert_eq!(output, vec![0x11, 0x00, 0x00, 1, 2]);
}

#[test]
fn equal_bytes() {
    assert!(all_bytes_equal(&[]));
    assert!(all_bytes_equal(&[3]));
    assert!(all_bytes_equal(&[3, 3, 3]));
    assert!(!all_bytes_equal(&[3, 3, 4]));
    assert!(!all_bytes_equal(&[4, 3, 3]));
}
