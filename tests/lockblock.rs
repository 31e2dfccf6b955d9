use lockblock::crypto::{context_of, Cachet, KeyTree};
use lockblock::error::LockBlockError;
use lockblock::merge::Merge;
use lockblock::source::ByteSource;
use lockblock::split::Split;
use sodiumoxide::crypto::aead::xchacha20poly1305_ietf as aead;
use std::io;

fn gen_root() -> KeyTree {
    assert!(sodiumoxide::init().is_ok());
    let k = aead::gen_key();
    KeyTree::from_root(k.0)
}

fn split_all(root: &KeyTree, data: &[u8], size: usize) -> Vec<([u8; 32], Cachet)> {
    let mut iter = Split::new(root, data, size).unwrap();
    let mut out = Vec::new();
    while let Some(res) = iter.next() {
        assert!(res.is_ok());
        out.push(res.unwrap());
    }
    out
}

fn merge_all(root: &KeyTree, pairs: &[([u8; 32], Cachet)], buf_len: usize) -> Vec<u8> {
    let mut mrg = Merge::new(root, pairs);
    let mut dst = Vec::new();
    let mut buf = vec![0u8; buf_len];
    loop {
        let res = mrg.read(&mut buf);
        assert!(res.is_ok());
        let n = res.unwrap();
        dst.extend_from_slice(&buf[..n]);
        if n == 0 {
            break;
        }
    }
    dst
}

#[test]
fn merge_test() {
    let root = gen_root();
    let test = b"hello cruel world";
    let mut iter = Split::new(&root, test.as_ref(), 0x03).unwrap();
    let mut src = Vec::new();
    while let Some(res) = iter.next() {
        assert!(res.is_ok());
        src.push(res.unwrap());
    }
    assert_eq!(6, src.len());
    let mut mrg = Merge::new(&root, &src);
    let mut dst: Vec<u8> = Vec::with_capacity(test.len());
    let mut buf = [0u8; 2];
    loop {
        let res = mrg.read(&mut buf);
        assert!(res.is_ok());
        let bytes_read = res.unwrap();
        for i in 0..bytes_read {
            dst.push(buf[i]);
        }
        if bytes_read == 0 {
            break;
        }
    }
    assert_eq!(dst, test);
}

#[test]
fn split_test() {
    let root = gen_root();
    let mut iter = Split::new(&root, b"hello".as_ref(), 0x02).unwrap();
    let mut count = 0;
    while let Some(res) = iter.next() {
        assert!(res.is_ok());
        let (hash, cachet) = res.unwrap();
        let decrypted = Merge::decrypt(&root, &hash, &cachet);
        assert!(decrypted.is_ok());
        assert_eq!(
            decrypted.unwrap(),
            match count {
                0 => b"he".to_vec(),
                1 => b"ll".to_vec(),
                2 => b"o".to_vec(),
                _ => Vec::new(),
            }
        );
        count = count + 1;
    }
    assert_eq!(count, 3);
}

#[test]
fn block_lengths_follow_block_size() {
    let root = gen_root();
    let pairs = split_all(&root, b"hello cruel world", 3);
    let lens: Vec<usize> = pairs
        .iter()
        .map(|(ctx, c)| Merge::decrypt(&root, ctx, c).unwrap().len())
        .collect();
    assert_eq!(lens, vec![3, 3, 3, 3, 3, 2]);
}

#[test]
fn exact_multiple_gives_full_last_block() {
    let root = gen_root();
    let pairs = split_all(&root, b"abcdef", 3);
    assert_eq!(pairs.len(), 2);
    assert_eq!(Merge::decrypt(&root, &pairs[1].0, &pairs[1].1).unwrap(), b"def".to_vec());
}

#[test]
fn empty_source_gives_no_pairs() {
    let root = gen_root();
    let mut iter = Split::new(&root, b"".as_ref(), 4).unwrap();
    assert!(iter.next().is_none());
    assert!(iter.next().is_none());
    let pairs: Vec<([u8; 32], Cachet)> = Vec::new();
    assert_eq!(merge_all(&root, &pairs, 8), Vec::<u8>::new());
}

#[test]
fn zero_block_size_is_refused() {
    let root = gen_root();
    let res = Split::new(&root, b"abc".as_ref(), 0);
    assert!(matches!(res, Err(LockBlockError::ConfigurationError)));
}

#[test]
fn round_trip_various_sizes() {
    let root = gen_root();
    let data: Vec<u8> = (0..1000u32).map(|i| (i * 7 % 251) as u8).collect();
    for size in [1usize, 2, 7, 64, 999, 1000, 4096] {
        let pairs = split_all(&root, &data, size);
        assert_eq!(pairs.len(), (data.len() + size - 1) / size);
        assert_eq!(merge_all(&root, &pairs, 13), data);
    }
}

#[test]
fn destination_size_does_not_matter() {
    let root = gen_root();
    let data = b"the quick brown fox jumps over the lazy dog".to_vec();
    let pairs = split_all(&root, &data, 5);
    let one = merge_all(&root, &pairs, 1);
    let big = merge_all(&root, &pairs, 4096);
    assert_eq!(one, big);
    assert_eq!(one, data);
}

#[test]
fn flipped_ciphertext_bit_fails() {
    let root = gen_root();
    let (ctx, mut c) = Split::<&[u8]>::encrypt(&root, b"secret block").unwrap();
    c.ciphertext[0] ^= 0x01;
    assert!(matches!(Merge::decrypt(&root, &ctx, &c), Err(LockBlockError::DecryptionError)));
}

#[test]
fn flipped_nonce_or_context_bit_fails() {
    let root = gen_root();
    let (ctx, c) = Split::<&[u8]>::encrypt(&root, b"secret block").unwrap();
    let mut bad_nonce = c.clone();
    bad_nonce.nonce[3] ^= 0x80;
    assert!(Merge::decrypt(&root, &ctx, &bad_nonce).is_err());
    let mut bad_ctx = ctx;
    bad_ctx[31] ^= 0x01;
    assert!(Merge::decrypt(&root, &bad_ctx, &c).is_err());
    assert_eq!(Merge::decrypt(&root, &ctx, &c).unwrap(), b"secret block".to_vec());
}

#[test]
fn tampered_pair_fails_merge_and_keeps_failing() {
    let root = gen_root();
    let mut pairs = split_all(&root, b"abcdefgh", 4);
    let last = pairs[1].1.ciphertext.len() - 1;
    pairs[1].1.ciphertext[last] ^= 0x10;
    let mut mrg = Merge::new(&root, &pairs);
    let mut buf = [0u8; 16];
    assert!(matches!(mrg.read(&mut buf), Err(LockBlockError::DecryptionError)));
    assert_eq!(&buf[..4], b"abcd");
    assert!(matches!(mrg.read(&mut buf), Err(LockBlockError::DecryptionError)));
}

#[test]
fn other_key_service_cannot_decrypt() {
    let x = gen_root();
    let y = gen_root();
    let pairs = split_all(&x, b"isolated", 3);
    let (ctx, c) = &pairs[0];
    assert!(Merge::decrypt(&y, ctx, c).is_err());
    let mut mrg = Merge::new(&y, &pairs);
    let mut buf = [0u8; 4];
    assert!(mrg.read(&mut buf).is_err());
}

#[test]
fn bytes_before_a_full_buffer_do_not_touch_a_bad_pair() {
    let root = gen_root();
    let mut pairs = split_all(&root, b"abcdefgh", 4);
    pairs[1].1.ciphertext[0] ^= 0x01;
    let mut mrg = Merge::new(&root, &pairs);
    let mut buf = [0u8; 4];
    assert_eq!(mrg.read(&mut buf).unwrap(), 4);
    assert_eq!(&buf, b"abcd");
    assert!(mrg.read(&mut buf).is_err());
}

#[test]
fn exhausted_merge_keeps_returning_zero() {
    let root = gen_root();
    let pairs = split_all(&root, b"xyz", 2);
    let mut mrg = Merge::new(&root, &pairs);
    let mut buf = [0u8; 8];
    assert_eq!(mrg.read(&mut buf).unwrap(), 3);
    assert_eq!(&buf[..3], b"xyz");
    assert_eq!(mrg.read(&mut buf).unwrap(), 0);
    assert_eq!(mrg.read(&mut buf).unwrap(), 0);
}

#[test]
fn empty_destination_reads_nothing() {
    let root = gen_root();
    let pairs = split_all(&root, b"xyz", 2);
    let mut mrg = Merge::new(&root, &pairs);
    let mut buf: [u8; 0] = [];
    assert_eq!(mrg.read(&mut buf).unwrap(), 0);
    let mut buf = [0u8; 3];
    assert_eq!(mrg.read(&mut buf).unwrap(), 3);
    assert_eq!(&buf, b"xyz");
}

struct Trickle {
    data: Vec<u8>,
    pos: usize,
}

impl ByteSource for Trickle {
    fn read_into(&mut self, buf: &mut Vec<u8>, from: usize) -> io::Result<usize> {
        if self.pos == self.data.len() {
            return Ok(0);
        }
        buf[from] = self.data[self.pos];
        self.pos += 1;
        Ok(1)
    }
}

#[test]
fn short_reads_still_fill_blocks() {
    let root = gen_root();
    let src = Trickle { data: b"abcdefg".to_vec(), pos: 0 };
    let mut iter = Split::new(&root, src, 3).unwrap();
    let mut blocks = Vec::new();
    while let Some(res) = iter.next() {
        let (ctx, c) = res.unwrap();
        blocks.push(Merge::decrypt(&root, &ctx, &c).unwrap());
    }
    assert_eq!(blocks, vec![b"abc".to_vec(), b"def".to_vec(), b"g".to_vec()]);
}

struct Broken;

impl ByteSource for Broken {
    fn read_into(&mut self, _buf: &mut Vec<u8>, _from: usize) -> io::Result<usize> {
        Err(io::Error::new(io::ErrorKind::Other, "broken"))
    }
}

#[test]
fn source_failure_is_an_io_error_and_ends_the_sequence() {
    let root = gen_root();
    let mut iter = Split::new(&root, Broken, 4).unwrap();
    assert!(matches!(iter.next(), Some(Err(LockBlockError::IOError(_)))));
    assert!(iter.next().is_none());
}

#[test]
fn context_is_sha256_of_block() {
    let ctx = context_of(b"abc");
    let expected: [u8; 32] = [
        0xba, 0x78, 0x16, 0xbf, 0x8f, 0x01, 0xcf, 0xea, 0x41, 0x41, 0x40, 0xde, 0x5d, 0xae, 0x22,
        0x23, 0xb0, 0x03, 0x61, 0xa3, 0x96, 0x17, 0x7a, 0x9c, 0xb4, 0x10, 0xff, 0x61, 0xf2, 0x00,
        0x15, 0xad,
    ];
    assert_eq!(ctx, expected);
    let root = gen_root();
    let (hash, _) = Split::<&[u8]>::encrypt(&root, b"abc").unwrap();
    assert_eq!(hash, expected);
}

#[test]
fn ciphertext_hides_and_extends_plaintext() {
    let root = gen_root();
    let ctx = context_of(b"plain text");
    let c = root.derive_and_encrypt(&ctx, b"plain text");
    assert_eq!(c.ciphertext.len(), b"plain text".len() + 16);
    assert_ne!(&c.ciphertext[..10], b"plain text");
    assert_eq!(root.derive_and_decrypt(&ctx, &c), Some(b"plain text".to_vec()));
}

#[test]
fn same_context_derives_same_key() {
    let root = gen_root();
    let ctx = context_of(b"block");
    let a = root.derive_and_encrypt(&ctx, b"block");
    let b = root.derive_and_encrypt(&ctx, b"block");
    assert_eq!(root.derive_and_decrypt(&ctx, &a), root.derive_and_decrypt(&ctx, &b));
}

#[test]
fn slice_source_reads_and_advances() {
    let mut src: &[u8] = b"abcdef";
    let mut buf = vec![0u8; 4];
    assert_eq!(src.read_into(&mut buf, 1).unwrap(), 3);
    assert_eq!(buf, vec![0u8, b'a', b'b', b'c']);
    assert_eq!(src, b"def");
    assert_eq!(src.read_into(&mut buf, 0).unwrap(), 3);
    assert_eq!(&buf[..3], b"def");
    assert_eq!(src.read_into(&mut buf, 0).unwrap(), 0);
}

struct FailsLater {
    left: usize,
}

impl ByteSource for FailsLater {
    fn read_into(&mut self, buf: &mut Vec<u8>, from: usize) -> io::Result<usize> {
        if self.left == 0 {
            return Err(io::Error::new(io::ErrorKind::Other, "gone"));
        }
        buf[from] = b'z';
        self.left -= 1;
        Ok(1)
    }
}

#[test]
fn failure_after_full_blocks_is_an_io_error() {
    let root = gen_root();
    let mut iter = Split::new(&root, FailsLater { left: 5 }, 2).unwrap();
    assert!(matches!(iter.next(), Some(Ok(_))));
    assert!(matches!(iter.next(), Some(Ok(_))));
    assert!(matches!(iter.next(), Some(Err(LockBlockError::IOError(_)))));
    assert!(iter.next().is_none());
}
