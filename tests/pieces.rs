use bpe_tokenizer::wire::{read_u32, read_u64, write_u32, write_u64};
use bpe_tokenizer::words::{merge_pair, pretokenize};
use bpe_tokenizer::DataLoader;

#[test]
fn u32_little_endian() {
    let mut out: Vec<u8> = vec![9];
    write_u32(&mut out, 0x1234_5678);
    assert_eq!(out, vec![9, 0x78, 0x56, 0x34, 0x12]);
    let mut pos: usize = 1;
    assert_eq!(read_u32(&out, &mut pos), Ok(0x1234_5678));
    assert_eq!(pos, 5);
    assert_eq!(read_u32(&out, &mut pos), Err("failed to fill whole buffer".to_string()));
    assert_eq!(pos, 5);
}

#[test]
fn u64_little_endian() {
    let mut out: Vec<u8> = Vec::new();
    write_u64(&mut out, 0x0102_0304_0506_0708);
    assert_eq!(out, vec![8, 7, 6, 5, 4, 3, 2, 1]);
    let mut pos: usize = 0;
    assert_eq!(read_u64(&out, &mut pos), Ok(0x0102_0304_0506_0708));
    assert_eq!(pos, 8);
    let mut pos: usize = 1;
    assert_eq!(read_u64(&out, &mut pos), Err("failed to fill whole buffer".to_string()));
    assert_eq!(pos, 1);
}

#[test]
fn pretokenize_splits_words() {
    let w = pretokenize(b"ab c!", Some(300), Some(301));
    assert_eq!(w, vec![vec![97, 98, 300], vec![32, 300], vec![99, 300], vec![33, 300], vec![301]]);
    let w = pretokenize(b"ab c", None, None);
    assert_eq!(w, vec![vec![97, 98], vec![32], vec![99]]);
    assert_eq!(pretokenize(b"", None, Some(7)), vec![vec![7]]);
    assert_eq!(pretokenize(b"", None, None), Vec::<Vec<u32>>::new());
    // bytes outside ASCII stand alone
    assert_eq!(pretokenize(&[0xc3, 0xa9, b'x'], None, None), vec![vec![0xc3], vec![0xa9], vec![120]]);
}

#[test]
fn merge_pair_single_pass() {
    assert_eq!(merge_pair(&vec![1, 1, 1], 1, 1, 5), vec![5, 1]);
    assert_eq!(merge_pair(&vec![1, 1, 1, 1], 1, 1, 5), vec![5, 5]);
    assert_eq!(merge_pair(&vec![3, 1, 2, 4, 1, 2], 1, 2, 9), vec![3, 9, 4, 9]);
    assert_eq!(merge_pair(&vec![7], 1, 2, 9), vec![7]);
    // a merged id may match again as the left half
    assert_eq!(merge_pair(&vec![1, 2, 2], 1, 2, 1), vec![1]);
}

#[test]
fn data_loader_checks_shape() {
    let r = DataLoader::new(vec![1u32, 2, 3].into_boxed_slice(), 4, 5);
    assert_eq!(r.err(), Some("DataLoader: batch size is larger than tokens".to_string()));
    let r = DataLoader::new(vec![0u32; 10].into_boxed_slice(), 5, 2);
    assert_eq!(r.err(), Some("DataLoader: segment length is larger than sequence length".to_string()));
}

#[test]
fn data_loader_window_past_segment() {
    let mut d = DataLoader::new(vec![0u32; 10].into_boxed_slice(), 6, 2).unwrap();
    assert_eq!(d.next_batch().err(), Some("DataLoader: cursor out of range".to_string()));
    assert_eq!(d.next_batch().err(), Some("DataLoader: cursor out of range".to_string()));
}
