use downsample::bytes::{bytes_eq, bytes_le, copy_bytes};
use downsample::chrom::{CanonicalSet, CANONICAL_COUNT};

#[test]
fn allow_list_has_twenty_four_names() {
    let set = CanonicalSet::new();
    assert_eq!(set.len(), 24);
    assert_eq!(CANONICAL_COUNT, 24);
}

#[test]
fn every_autosome_and_both_sex_chromosomes_are_canonical() {
    let set = CanonicalSet::new();
    for n in 1..=22 {
        let name = format!("chr{}", n);
        assert!(set.contains(name.as_bytes()), "{}", name);
    }
    assert!(set.contains(b"chrX"));
    assert!(set.contains(b"chrY"));
}

#[test]
fn other_names_are_not_canonical() {
    let set = CanonicalSet::new();
    let others: [&[u8]; 14] = [
        b"chrM", b"chr0", b"chr23", b"chr01", b"chr", b"", b"CHR1", b"chr1 ", b" chr1", b"1",
        b"chrx", b"chrXY", b"chr1_random", b"chrUn",
    ];
    for name in others {
        assert!(!set.contains(name));
    }
}

#[test]
fn byte_equality() {
    assert!(bytes_eq(b"", b""));
    assert!(bytes_eq(b"chr1", b"chr1"));
    assert!(!bytes_eq(b"chr1", b"chr2"));
    assert!(!bytes_eq(b"chr1", b"chr10"));
    assert!(!bytes_eq(b"chr10", b"chr1"));
}

#[test]
fn byte_order_is_that_of_slices() {
    let words: [&[u8]; 9] =
        [b"", b"a", b"ab", b"b", b"chr1", b"chr10", b"chr2", b"chrX", &[0xff, 0x00]];
    for a in words {
        for b in words {
            assert_eq!(bytes_le(a, b), a <= b);
        }
    }
}

#[test]
fn chr10_sorts_before_chr2() {
    assert!(bytes_le(b"chr10", b"chr2"));
    assert!(!bytes_le(b"chr2", b"chr10"));
}

#[test]
fn copies_hold_the_same_bytes() {
    assert_eq!(copy_bytes(b"chr7"), b"chr7".to_vec());
    assert_eq!(copy_bytes(b""), Vec::<u8>::new());
}
