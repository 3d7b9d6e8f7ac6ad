use cs431::test::random::{key_length, mask_u32, mask_usize, random_below, KEY_MAX_LENGTH, USIZE_MASK};
use cs431::test::RandGen;

#[test]
fn masks_keep_only_their_bits() {
    assert_eq!(mask_usize(u64::MAX), USIZE_MASK as usize);
    assert_eq!(mask_usize(0x1234), 0x1234 & 0x7777);
    assert_eq!(mask_usize(0), 0);
    assert_eq!(mask_u32(u32::MAX), 0x6666_6666);
    assert_eq!(mask_u32(0x0f0f_0f0f), 0x0606_0606);
}

#[test]
fn key_length_is_below_the_maximum() {
    assert_eq!(key_length(0), 0);
    assert_eq!(key_length(7), 3);
    assert_eq!(key_length(8), 0);
    for x in 0..100u64 {
        assert!(key_length(x) < KEY_MAX_LENGTH);
    }
}

#[test]
fn random_values_respect_their_shapes() {
    let mut rng = rand::rng();
    let mut longest = 0;
    for _ in 0..200 {
        let s = String::rand_gen(&mut rng);
        longest = longest.max(s.len());
        assert!(s.len() < KEY_MAX_LENGTH);
        assert!(s.chars().all(|c| c.is_ascii_alphanumeric()));
        let u = usize::rand_gen(&mut rng);
        assert_eq!((u as u64) & USIZE_MASK, u as u64);
        let v = u32::rand_gen(&mut rng);
        assert_eq!(v & 0x6666_6666, v);
        let _ = u8::rand_gen(&mut rng);
        assert!(random_below(&mut rng, 10) < 10);
    }
    // Keys of every length below the maximum come up.
    assert_eq!(longest, KEY_MAX_LENGTH - 1);
}
