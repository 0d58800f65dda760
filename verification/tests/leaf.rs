//! Leaf headers and sizes.
use holt::layout::{leaf_body_size, Leaf};

#[test]
fn body_size_alignment() {
    assert_eq!(leaf_body_size(0, 0), 16); // 16 → 16
    assert_eq!(leaf_body_size(3, 5), 24); // 16+3+5=24
    assert_eq!(leaf_body_size(4, 4), 24); // 16+4+4=24
    assert_eq!(leaf_body_size(1, 0), 24); // 16+1=17 → 24
    assert_eq!(leaf_body_size(10, 5), 32); // 16+10+5=31 → 32
    assert_eq!(leaf_body_size(100, 200), (16 + 100 + 200 + 7) & !7);
}

#[test]
fn body_size_always_aligned_to_8() {
    for key_len in 0..64 {
        for value_len in 0..64 {
            let s = leaf_body_size(key_len, value_len);
            assert_eq!(s % 8, 0, "leaf_body_size({key_len}, {value_len}) = {s}");
            let need = 16 + key_len + value_len;
            assert!(s >= need);
            assert!(s < need + 8);
        }
    }
}

#[test]
fn live_leaf_is_no_tombstone() {
    let leaf = Leaf::live(3, 5, 42, 0x7f);
    assert_eq!(leaf.key_len, 3);
    assert_eq!(leaf.value_len, 5);
    assert_eq!(leaf.seq, 42);
    assert_eq!(leaf.key_fp, 0x7f);
    assert_eq!(leaf.tombstone, 0);
}
