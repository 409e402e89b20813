use zstd_encoder::frame::BlockCompressor;
use zstd_encoder::frame::FrameCompressor;
use zstd_encoder::frame::Logged;
use zstd_encoder::level::CompressionLevel;

/// A block compressor for inputs that never reach it.
struct Unused;

impl BlockCompressor for Unused {
    fn add_data_no_matching(&mut self, _data: &[u8]) {}

    fn compress_block(&mut self, _data: &[u8]) -> Vec<u8> {
        panic!("no block should need compressing")
    }
}

fn encode(data: &[u8], level: CompressionLevel) -> Vec<u8> {
    let mut compressor = FrameCompressor::new(data, Vec::new(), level);
    compressor.compress(&mut Logged::new(Unused)).unwrap();
    compressor.into_compressed_data()
}

fn decode_zstd(data: &[u8]) -> Vec<u8> {
    let mut output = Vec::new();
    zstd::stream::copy_decode(data, &mut output).unwrap();
    output
}

#[test]
fn reference_decoder_reads_uncompressed_frames() {
    for len in [0usize, 1, 5, 1000, 131052, 131053, 400_000] {
        let data: Vec<u8> = (0..len).map(|i| (i * 31 % 256) as u8).collect();
        assert_eq!(decode_zstd(&encode(&data, CompressionLevel::Uncompressed)), data);
    }
}

#[test]
fn reference_decoder_reads_run_length_frames() {
    let data = vec![0u8; 1 << 19];
    let frame = encode(&data, CompressionLevel::Fastest);
    assert_eq!(frame.len(), 26);
    assert_eq!(decode_zstd(&frame), data);
    let data = vec![0xEEu8; 7];
    assert_eq!(decode_zstd(&encode(&data, CompressionLevel::Fastest)), data);
    assert_eq!(decode_zstd(&encode(&[], CompressionLevel::Fastest)), Vec::<u8>::new());
}

/// A block compressor that finds no matches: its payload holds the block as
/// raw literals, followed by an empty sequences section.
struct LiteralsOnly {
    seen: usize,
}

impl BlockCompressor for LiteralsOnly {
    fn add_data_no_matching(&mut self, data: &[u8]) {
        self.seen += data.len();
    }

    fn compress_block(&mut self, data: &[u8]) -> Vec<u8> {
        self.seen += data.len();
        // Raw literals with a 20-bit size: type 0, size format 3.
        let header = ((data.len() as u32) << 4) | 0b1100;
        let mut payload = header.to_le_bytes()[0..3].to_vec();
        payload.extend_from_slice(data);
        // No sequences.
        payload.push(0);
        payload
    }
}

#[test]
fn reference_decoder_reads_compressed_blocks_of_the_fastest_level() {
    let mut data: Vec<u8> = vec![7u8; 131052];
    data.extend((0..131052).map(|i| (i % 251) as u8));
    data.extend((0..1000).map(|i| (i % 17) as u8));
    data.extend(vec![9u8; 131052 - 1000]);
    data.extend(vec![1u8, 2, 3]);
    let mut matcher = Logged::new(LiteralsOnly { seen: 0 });
    let mut compressor =
        FrameCompressor::new(data.as_slice(), Vec::new(), CompressionLevel::Fastest);
    compressor.compress(&mut matcher).unwrap();
    let frame = compressor.into_compressed_data();
    assert_eq!(matcher.into_inner().seen, data.len());
    // A run-length block, two full blocks that fall back to raw because
    // their payloads are longer than a block, and a last compressed block.
    assert_eq!(
        frame.len(),
        6 + (3 + 1) + (3 + 131052) + (3 + 131052) + (3 + 3 + 4)
    );
    assert_eq!(decode_zstd(&frame), data);
}
