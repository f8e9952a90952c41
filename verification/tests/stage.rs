use flate2::write::ZlibEncoder;
use flate2::Compression;
use lethe::sanitization::stage::Stage;
use rand_chacha::rand_core::RngCore;
use rand_chacha::rand_core::SeedableRng;
use std::io::Write;

const TEST_SIZE: u64 = 10245;
const TEST_BLOCK: usize = 256;

fn create_test_vec() -> Vec<u8> {
    (0..TEST_SIZE).map(|x| (x % 256) as u8).collect()
}

fn fill(v: &mut Vec<u8>, stage: &mut Stage) -> () {
    let mut stream = stage.stream(TEST_SIZE, TEST_BLOCK, 0);

    let mut position = 0;
    while let Some(chunk) = stream.next() {
        let chunk_size = chunk.len();
        v[position..position + chunk_size].clone_from_slice(chunk);
        position += chunk_size;
    }
}

fn calculate_entropy(v: &[u8]) -> f64 {
    let mut e = ZlibEncoder::new(Vec::new(), Compression::best());
    e.write_all(v).unwrap();
    let compressed_bytes = e.finish();
    compressed_bytes.unwrap().len() as f64 / v.len() as f64
}

fn chunks_of(stage: &Stage, total_size: u64, block_size: usize, start_from: u64) -> Vec<Vec<u8>> {
    let mut stream = stage.stream(total_size, block_size, start_from);
    let mut chunks = Vec::new();
    while let Some(chunk) = stream.next() {
        chunks.push(chunk.to_vec());
    }
    chunks
}

#[test]
fn stage_test_stage_fill_behaves() {
    let mut data1 = create_test_vec();
    let mut stage = Stage::Fill { value: 0x33 };

    fill(&mut data1, &mut stage);
    assert!(data1.iter().find(|x| **x != 0x33).is_none());

    let mut data2 = create_test_vec();
    fill(&mut data2, &mut stage);

    assert_eq!(data1, data2);
}

#[test]
fn stage_test_stage_random_behaves() {
    let mut data1 = create_test_vec();
    let mut stage = Stage::random_with_seed([13; 32]);

    fill(&mut data1, &mut stage);

    assert_ne!(data1, create_test_vec());

    let unchanged = data1
        .iter()
        .zip(create_test_vec().iter())
        .filter(|t| t.0 == t.1)
        .count() as u64;

    assert!(unchanged < TEST_SIZE / 100); // allows for some edge cases

    let mut data2 = create_test_vec();
    fill(&mut data2, &mut stage);

    assert_eq!(data1, data2);

    let mut stage3 = Stage::random_with_seed([66; 32]);
    let mut data3 = create_test_vec();
    fill(&mut data3, &mut stage3);

    assert_ne!(data3, data2);
}

#[test]
fn stage_test_stage_random_entropy() {
    let mut data = create_test_vec();
    let mut stage = Stage::random_with_seed([13; 32]);
    fill(&mut data, &mut stage);

    let source_entropy = calculate_entropy(create_test_vec().as_ref());
    let stage_entropy = calculate_entropy(data.as_ref());

    assert!(stage_entropy > source_entropy);
    assert!(stage_entropy > 0.9);
}

#[test]
fn test_stage_constructors() {
    assert!(matches!(Stage::constant(0x5a), Stage::Fill { value: 0x5a }));
    assert!(matches!(Stage::zero(), Stage::Fill { value: 0x00 }));
    assert!(matches!(Stage::one(), Stage::Fill { value: 0xff }));
    assert!(matches!(Stage::random_with_seed([9; 32]), Stage::Random { seed } if seed == [9; 32]));
    assert!(Stage::random().is_random());
    assert!(!Stage::zero().is_random());
    match (Stage::random(), Stage::random()) {
        (Stage::Random { seed: a }, Stage::Random { seed: b }) => assert_ne!(a, b),
        _ => panic!("random stages expected"),
    }
}

#[test]
fn test_stream_chunk_lengths() {
    let chunks = chunks_of(&Stage::zero(), 10245, 256, 0);
    assert_eq!(chunks.len(), 41);
    assert!(chunks[..40].iter().all(|c| c.len() == 256));
    assert_eq!(chunks[40].len(), 5);

    let chunks = chunks_of(&Stage::zero(), 100000, 32768, 32768);
    let lengths: Vec<usize> = chunks.iter().map(|c| c.len()).collect();
    assert_eq!(lengths, vec![32768, 32768, 1696]);

    let chunks = chunks_of(&Stage::one(), 1024, 256, 0);
    assert_eq!(chunks.len(), 4);
    assert!(chunks.iter().all(|c| c.len() == 256));
}

#[test]
fn test_stream_of_nothing_is_empty() {
    assert!(chunks_of(&Stage::zero(), 0, 512, 0).is_empty());
    assert!(chunks_of(&Stage::random_with_seed([1; 32]), 4096, 512, 4096).is_empty());
    assert!(chunks_of(&Stage::zero(), 4096, 512, 5000).is_empty());
}

#[test]
fn test_stream_stays_exhausted() {
    let stage = Stage::constant(0x11);
    let mut stream = stage.stream(700, 512, 0);
    assert_eq!(stream.get().map(|c| c.len()), Some(0));
    assert_eq!(stream.next().map(|c| c.len()), Some(512));
    assert_eq!(stream.get().map(|c| c.len()), Some(512));
    assert_eq!(stream.next().map(|c| c.len()), Some(188));
    assert!(stream.next().is_none());
    assert!(stream.get().is_none());
    stream.advance();
    assert!(stream.next().is_none());
}

#[test]
fn test_constant_stream_yields_only_its_value() {
    for chunk in chunks_of(&Stage::constant(0xa7), 5000, 512, 1024) {
        assert!(chunk.iter().all(|x| *x == 0xa7));
    }
}

#[test]
fn test_random_stream_is_positional() {
    let stage = Stage::random_with_seed([42; 32]);
    let whole: Vec<u8> = chunks_of(&stage, 20000, 512, 0).concat();
    assert_eq!(whole.len(), 20000);
    for start in [4u64, 512, 1028, 8192, 19996] {
        let tail: Vec<u8> = chunks_of(&stage, 20000, 512, start).concat();
        assert_eq!(tail.len() as u64, 20000 - start);
        assert_eq!(tail[..], whole[start as usize..]);
    }
}

#[test]
fn test_random_stream_is_the_chacha8_keystream() {
    let seed = [3u8; 32];
    let mut generator = rand_chacha::ChaCha8Rng::from_seed(seed);
    let mut expected = vec![0u8; 4096];
    generator.fill_bytes(&mut expected);

    let whole: Vec<u8> = chunks_of(&Stage::random_with_seed(seed), 4096, 1024, 0).concat();
    assert_eq!(whole, expected);
    assert_ne!(whole[..1024], whole[1024..2048]);
}

#[test]
fn test_random_stream_with_odd_blocks_uses_whole_words() {
    let seed = [5u8; 32];
    let mut generator = rand_chacha::ChaCha8Rng::from_seed(seed);
    let mut keystream = vec![0u8; 64];
    generator.fill_bytes(&mut keystream);

    let chunks = chunks_of(&Stage::random_with_seed(seed), 9, 3, 0);
    assert_eq!(chunks.len(), 3);
    assert_eq!(chunks[0][..], keystream[0..3]);
    assert_eq!(chunks[1][..], keystream[4..7]);
    assert_eq!(chunks[2][..], keystream[8..11]);
}

#[test]
fn test_stage_descriptions() {
    assert_eq!(Stage::zero().describe(), "fill with 0x00");
    assert_eq!(Stage::one().describe(), "fill with 0xFF");
    assert_eq!(Stage::constant(0xaa).describe(), "fill with 0xAA");
    assert_eq!(Stage::constant(0x0b).describe(), "fill with 0x0B");
    assert_eq!(Stage::constant(0x90).describe(), "fill with 0x90");
    assert_eq!(Stage::random_with_seed([0; 32]).describe(), "random fill");
}

#[test]
fn sanitization_test_stage_fill_behaves() {
    let mut data1 = create_test_vec();
    let mut stage = Stage::Fill { value: 0x33 };

    fill(&mut data1, &mut stage);
    assert!(data1.iter().find(|x| **x != 0x33).is_none());

    let mut data2 = create_test_vec();
    fill(&mut data2, &mut stage);

    assert_eq!(data1, data2);
}
