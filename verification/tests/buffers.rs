use fanout_ring::buf4k::{Buf4K, BLOCK_SIZE};

#[test]
fn buf4k_new_is_zeroed_whole_blocks() {
    let b = Buf4K::new(2);
    assert_eq!(b.len(), 2 * BLOCK_SIZE);
    assert_eq!(b.get(0), 0);
    assert_eq!(b.get(BLOCK_SIZE), 0);
    assert_eq!(b.get(2 * BLOCK_SIZE - 1), 0);
}

#[test]
fn buf4k_new_zero_blocks_is_empty() {
    let b = Buf4K::new(0);
    assert_eq!(b.len(), 0);
}

#[test]
fn buf4k_from_bytes_keeps_content() {
    let mut src: Vec<u8> = Vec::new();
    for i in 0..BLOCK_SIZE {
        src.push((i % 251) as u8);
    }
    let b = Buf4K::from_bytes(&src);
    assert_eq!(b.len(), BLOCK_SIZE);
    for i in 0..BLOCK_SIZE {
        assert_eq!(b.get(i), (i % 251) as u8);
    }
}

#[test]
fn buf4k_append_to_concatenates() {
    let mut src: Vec<u8> = Vec::new();
    for i in 0..BLOCK_SIZE {
        src.push((i % 7) as u8);
    }
    let b = Buf4K::from_bytes(&src);
    let mut out: Vec<u8> = vec![9, 9];
    b.append_to(&mut out);
    assert_eq!(out.len(), 2 + BLOCK_SIZE);
    assert_eq!(out[0], 9);
    assert_eq!(out[1], 9);
    for i in 0..BLOCK_SIZE {
        assert_eq!(out[2 + i], (i % 7) as u8);
    }
}
