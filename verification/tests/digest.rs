use ksero::digest::{prefix_digest, HashWriter, DIGEST_SEED, PREFIX_LEN, STREAM_BUFFER_LEN};
use std::hash::Hasher;

fn streamed(content: &[u8], chunk: usize) -> u64 {
    let mut writer = HashWriter::new();
    for piece in content.chunks(chunk) {
        assert!(writer.write(piece));
    }
    writer.finish()
}

fn reference(content: &[u8]) -> u64 {
    let mut hasher = twox_hash::XxHash64::with_seed(0);
    hasher.write(content);
    hasher.finish()
}

fn pattern(len: usize) -> Vec<u8> {
    (0..len).map(|i| (i * 31 + i / 7) as u8).collect()
}

#[test]
fn constants_have_their_documented_values() {
    assert_eq!(DIGEST_SEED, 0);
    assert_eq!(PREFIX_LEN, 1024);
    assert_eq!(STREAM_BUFFER_LEN, 128 * 1024);
}

#[test]
fn digest_of_nothing() {
    let writer = HashWriter::new();
    assert_eq!(writer.written(), 0);
    assert_eq!(writer.finish(), 0xef46_db37_51d8_e999);
    assert_eq!(prefix_digest(&[]), 0xef46_db37_51d8_e999);
}

#[test]
fn digest_of_a_single_byte() {
    let mut writer = HashWriter::new();
    assert!(writer.write(&[42]));
    assert_eq!(writer.written(), 1);
    assert_eq!(writer.finish(), 0x0a9e_dece_beb0_3ae4);
    assert_eq!(prefix_digest(&[42]), 0x0a9e_dece_beb0_3ae4);
}

#[test]
fn digest_of_a_short_text() {
    let mut writer = HashWriter::new();
    assert!(writer.write(b"Hello, world!\0"));
    assert_eq!(writer.finish(), 0x7b06_c531_ea43_e89f);
    assert_eq!(prefix_digest(b"Hello, world!\0"), 0x7b06_c531_ea43_e89f);
}

#[test]
fn digest_of_a_hundred_bytes() {
    let bytes: Vec<u8> = (0..100).collect();
    assert_eq!(streamed(&bytes, 100), 0x6ac1_e580_3216_6597);
    assert_eq!(prefix_digest(&bytes), 0x6ac1_e580_3216_6597);
}

#[test]
fn finish_does_not_consume_the_writer() {
    let mut writer = HashWriter::new();
    assert!(writer.write(b"Hello, "));
    let early = writer.finish();
    assert_eq!(early, reference(b"Hello, "));
    assert!(writer.write(b"world!\0"));
    assert_eq!(writer.finish(), 0x7b06_c531_ea43_e89f);
    assert_eq!(writer.written(), 14);
}

#[test]
fn chunking_does_not_change_the_digest() {
    let content = pattern(5000);
    let whole = streamed(&content, content.len());
    assert_eq!(whole, reference(&content));
    for chunk in [1usize, 7, 31, 32, 33, 64, 1000, 4999] {
        assert_eq!(streamed(&content, chunk), whole);
    }
}

#[test]
fn an_empty_chunk_changes_nothing() {
    let mut writer = HashWriter::new();
    assert!(writer.write(b"abc"));
    assert!(writer.write(&[]));
    assert_eq!(writer.written(), 3);
    assert_eq!(writer.finish(), reference(b"abc"));
}

#[test]
fn different_content_gives_a_different_digest() {
    assert_ne!(streamed(b"hello", 5), streamed(b"world", 5));
    assert_ne!(streamed(b"hello", 5), streamed(b"hello!", 6));
}

#[test]
fn prefix_digest_covers_a_short_file_whole() {
    let content = pattern(PREFIX_LEN);
    assert_eq!(prefix_digest(&content), streamed(&content, 64));
    let shorter = pattern(10);
    assert_eq!(prefix_digest(&shorter), reference(&shorter));
}

#[test]
fn prefix_digest_stops_at_the_prefix_length() {
    let content = pattern(3000);
    let lead = &content[..PREFIX_LEN];
    assert_eq!(prefix_digest(&content), reference(lead));
    assert_eq!(prefix_digest(&content), prefix_digest(lead));
    assert_ne!(prefix_digest(&content), reference(&content));
}

#[test]
fn prefix_digest_ignores_what_follows_the_prefix() {
    let mut first = pattern(2048);
    let mut second = pattern(4096);
    first[PREFIX_LEN] = 1;
    second[PREFIX_LEN] = 2;
    assert_eq!(prefix_digest(&first), prefix_digest(&second));
    assert_ne!(streamed(&first, 512), streamed(&second, 512));
}

#[test]
fn prefix_digest_sees_a_change_in_the_last_covered_byte() {
    let first = pattern(2048);
    let mut second = pattern(2048);
    second[PREFIX_LEN - 1] ^= 0xff;
    assert_ne!(prefix_digest(&first), prefix_digest(&second));
}

#[test]
fn a_short_file_and_a_long_file_with_the_same_start_need_not_collide() {
    let long = pattern(10_000);
    let short = &long[..10];
    assert_eq!(prefix_digest(short), reference(short));
    assert_eq!(prefix_digest(&long), reference(&long[..PREFIX_LEN]));
    assert_ne!(prefix_digest(short), prefix_digest(&long));
}
