use lsdup::lsdup::content::{use_mapping, ContentHasher, MIN_MAPPED_LEN};
use lsdup::lsdup::devino::DevIno;
use lsdup::lsdup::lenhash::LenHash;
use std::cmp::Ordering;

fn digest_hex(pieces: &[&[u8]]) -> String {
    let mut h = ContentHasher::new();
    let mut len: u64 = 0;
    for p in pieces {
        h.update(p);
        len += p.len() as u64;
    }
    h.finish(len).to_hex().as_str().to_string()
}

#[test]
fn to_hex_gives_two_lowercase_digits_per_byte() {
    let mut bytes = [0u8; 32];
    bytes[0] = 0x01;
    bytes[1] = 0xab;
    bytes[2] = 0xf0;
    bytes[31] = 0x9c;
    let id = LenHash::from(5, bytes);
    let text = id.to_hex();
    assert_eq!(64, text.len());
    let expected = format!("01abf0{}9c", "0".repeat(56));
    assert_eq!(expected, text.as_str());
}

#[test]
fn len_is_the_given_length() {
    assert_eq!(12345, LenHash::from(12345, [7u8; 32]).len());
}

#[test]
fn digest_of_empty_input() {
    assert_eq!(
        "af1349b9f5f9a1a6a0404dea36dcc9499bcb25c9adc112b7cc9a93cae41f3262",
        digest_hex(&[])
    );
}

#[test]
fn digest_of_abc() {
    assert_eq!(
        "6437b3ac38465133ffb63b75273a8db548c558465d79db03fd359c6cd5bd9d85",
        digest_hex(&[b"abc"])
    );
}

#[test]
fn streamed_pieces_match_one_mapped_update() {
    let data: Vec<u8> = (0..40000u32).map(|i| (i * 31 % 251) as u8).collect();
    assert!(use_mapping(data.len() as u64));
    let whole = digest_hex(&[&data]);
    let pieces: Vec<&[u8]> = data.chunks(8192).collect();
    assert_eq!(whole, digest_hex(&pieces));
    let uneven = [&data[..1], &data[1..16385], &data[16385..]];
    assert_eq!(whole, digest_hex(&uneven));
}

#[test]
fn finish_keeps_the_given_length() {
    let mut h = ContentHasher::new();
    h.update(b"hello");
    let a = h.finish(5);
    assert_eq!(5, a.len());
    h.update(b" world");
    let b = h.finish(11);
    assert_eq!(11, b.len());
    assert_ne!(a.to_hex().as_str(), b.to_hex().as_str());
}

#[test]
fn mapping_threshold() {
    assert_eq!(16384, MIN_MAPPED_LEN);
    assert!(!use_mapping(0));
    assert!(!use_mapping(16383));
    assert!(use_mapping(16384));
    assert!(use_mapping(isize::MAX as u64));
    assert!(!use_mapping(isize::MAX as u64 + 1));
    assert!(!use_mapping(u64::MAX));
}

#[test]
fn longer_contents_reported_first() {
    let long = LenHash::from(10, [0u8; 32]);
    let short = LenHash::from(9, [255u8; 32]);
    assert_eq!(Ordering::Less, long.cmp(&short));
    assert_eq!(Ordering::Greater, short.cmp(&long));
}

#[test]
fn larger_digest_reported_first_among_equal_lengths() {
    let mut hi = [0u8; 32];
    hi[31] = 2;
    let mut lo = [0u8; 32];
    lo[31] = 1;
    let a = LenHash::from(4, hi);
    let b = LenHash::from(4, lo);
    assert_eq!(Ordering::Less, a.cmp(&b));
    assert_eq!(Ordering::Greater, b.cmp(&a));
    assert_eq!(Ordering::Equal, a.cmp(&LenHash::from(4, hi)));
}

#[test]
fn devino_keeps_device_and_inode() {
    let d = DevIno::from(3, 99);
    assert_eq!((3, 99), d.key());
    assert_eq!(d, DevIno::from(3, 99));
    assert_ne!(d, DevIno::from(4, 99));
}
