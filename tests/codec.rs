use shamir_share::field::{gf_add, gf_mul};
use shamir_share::io::{decode_shares, encode_shares, Header, ShareError, U64Iterator};

fn pick(shares: &[Vec<u8>], idx: &[usize]) -> Vec<Vec<u8>> {
    idx.iter().map(|&i| shares[i].clone()).collect()
}

fn word(share: &[u8], j: usize) -> u64 {
    let mut b = [0u8; 8];
    b.copy_from_slice(&share[32 + 8 * j..40 + 8 * j]);
    u64::from_le_bytes(b)
}

fn subsets(n: usize, k: usize) -> Vec<Vec<usize>> {
    let mut out = Vec::new();
    for mask in 0u32..(1u32 << n) {
        if mask.count_ones() as usize == k {
            out.push((0..n).filter(|i| mask & (1 << i) != 0).collect());
        }
    }
    out
}

#[test]
fn empty_plaintext() {
    let shares = encode_shares(Vec::new(), 3, 2).unwrap();
    assert_eq!(shares.len(), 3);
    for (i, s) in shares.iter().enumerate() {
        assert_eq!(s.len(), 32);
        let h = Header::parse(s).unwrap();
        assert_eq!(h, Header { length: 0, num_shares: 3, min_shares: 2, evaluation_point: i as u64 + 1 });
    }
    assert_eq!(decode_shares(&pick(&shares, &[0, 1])).unwrap(), Vec::<u8>::new());
}

#[test]
fn single_byte_is_a_line() {
    let shares = encode_shares(vec![0x41], 3, 2).unwrap();
    for s in shares.iter() {
        assert_eq!(s.len(), 40);
    }
    let c1 = gf_add(word(&shares[0], 0), 0x41);
    for (i, s) in shares.iter().enumerate() {
        assert_eq!(word(s, 0), gf_add(0x41, gf_mul(c1, i as u64 + 1)));
    }
    for idx in subsets(3, 2) {
        assert_eq!(decode_shares(&pick(&shares, &idx)).unwrap(), vec![0x41]);
    }
}

#[test]
fn sixteen_bytes_three_of_five() {
    let plain: Vec<u8> = (0u8..16).collect();
    let shares = encode_shares(plain.clone(), 5, 3).unwrap();
    for s in shares.iter() {
        assert_eq!(s.len(), 32 + 16);
    }
    assert_eq!(decode_shares(&pick(&shares, &[1, 3, 4])).unwrap(), plain);
}

#[test]
fn partial_last_word() {
    let plain = vec![0xFFu8; 9];
    let shares = encode_shares(plain.clone(), 3, 2).unwrap();
    for s in shares.iter() {
        assert_eq!(s.len(), 32 + 16);
        assert_eq!(Header::parse(s).unwrap().length, 9);
    }
    let out = decode_shares(&pick(&shares, &[2, 0])).unwrap();
    assert_eq!(out.len(), 9);
    assert_eq!(out, plain);
}

#[test]
fn threshold_one_shares_are_the_plaintext() {
    let plain = vec![1u8, 2, 3, 4, 5, 6, 7, 8, 9, 10];
    let shares = encode_shares(plain.clone(), 2, 1).unwrap();
    let mut padded = plain.clone();
    padded.resize(16, 0);
    for s in shares.iter() {
        assert_eq!(&s[32..], &padded[..]);
        assert_eq!(decode_shares(&[s.clone()]).unwrap(), plain);
    }
}

#[test]
fn tampered_share_changes_output() {
    let plain: Vec<u8> = b"attack at dawn!!".to_vec();
    let mut shares = encode_shares(plain.clone(), 3, 2).unwrap();
    shares[1][32 + 3] ^= 0x01;
    let out = decode_shares(&pick(&shares, &[0, 1])).unwrap();
    assert_eq!(out.len(), plain.len());
    assert_ne!(out, plain);
}

#[test]
fn every_subset_recovers_plaintext() {
    let plain: Vec<u8> = (0..45u32).map(|i| (i * 37 % 251) as u8).collect();
    for n in 1..=5usize {
        for k in 1..=n {
            let shares = encode_shares(plain.clone(), n, k).unwrap();
            for idx in subsets(n, k) {
                let out = decode_shares(&pick(&shares, &idx)).unwrap();
                assert_eq!(out, plain);
            }
        }
    }
}

#[test]
fn share_order_does_not_matter() {
    let plain: Vec<u8> = b"order independence".to_vec();
    let shares = encode_shares(plain.clone(), 4, 3).unwrap();
    let orders = [[0usize, 1, 2], [2, 1, 0], [1, 2, 0], [0, 2, 1]];
    let first = decode_shares(&pick(&shares, &orders[0])).unwrap();
    for o in orders.iter() {
        assert_eq!(decode_shares(&pick(&shares, o)).unwrap(), first);
    }
    assert_eq!(first, plain);
}

#[test]
fn extra_shares_are_ignored() {
    let plain = vec![9u8, 8, 7];
    let mut shares = encode_shares(plain.clone(), 3, 2).unwrap();
    shares[2].truncate(5);
    assert_eq!(decode_shares(&shares).unwrap(), plain);
}

#[test]
fn bad_parameters_are_rejected() {
    assert_eq!(encode_shares(vec![1], 3, 0), Err(ShareError::InvalidParameters));
    assert_eq!(encode_shares(vec![1], 2, 3), Err(ShareError::InvalidParameters));
    assert_eq!(encode_shares(vec![1], 0, 0), Err(ShareError::InvalidParameters));
}

#[test]
fn too_few_shares() {
    let shares = encode_shares(vec![1, 2, 3], 3, 3).unwrap();
    assert_eq!(decode_shares(&pick(&shares, &[0, 1])), Err(ShareError::TooFewShares));
    assert_eq!(decode_shares(&[]), Err(ShareError::TooFewShares));
}

#[test]
fn malformed_header() {
    assert_eq!(decode_shares(&[vec![0u8; 31]]), Err(ShareError::MalformedHeader));
    let shares = encode_shares(vec![1, 2, 3], 3, 2).unwrap();
    let mut short = pick(&shares, &[0, 1]);
    short[1].truncate(20);
    assert_eq!(decode_shares(&short), Err(ShareError::MalformedHeader));
    let zero_threshold = Header { length: 0, num_shares: 1, min_shares: 0, evaluation_point: 1 }.to_bytes();
    assert_eq!(decode_shares(&[zero_threshold]), Err(ShareError::MalformedHeader));
}

#[test]
fn mismatched_headers() {
    let a = encode_shares(vec![1, 2, 3], 3, 2).unwrap();
    let b = encode_shares(vec![1, 2, 3, 4], 3, 2).unwrap();
    assert_eq!(decode_shares(&[a[0].clone(), b[1].clone()]), Err(ShareError::MismatchedHeader));
}

#[test]
fn duplicate_points() {
    let shares = encode_shares(vec![1, 2, 3], 3, 2).unwrap();
    assert_eq!(decode_shares(&pick(&shares, &[1, 1])), Err(ShareError::DuplicatePoint));
}

#[test]
fn truncated_body() {
    let shares = encode_shares(vec![1u8; 12], 3, 2).unwrap();
    let mut two = pick(&shares, &[0, 2]);
    two[1].truncate(32 + 8);
    assert_eq!(decode_shares(&two), Err(ShareError::TruncatedShare));
}

#[test]
fn header_round_trip() {
    let h = Header { length: 0x0102, num_shares: 5, min_shares: 3, evaluation_point: 0xFFEE };
    let bytes = h.to_bytes();
    assert_eq!(bytes.len(), 32);
    assert_eq!(&bytes[0..8], &[2, 1, 0, 0, 0, 0, 0, 0]);
    assert_eq!(&bytes[8..16], &[5, 0, 0, 0, 0, 0, 0, 0]);
    assert_eq!(&bytes[24..32], &[0xEE, 0xFF, 0, 0, 0, 0, 0, 0]);
    assert_eq!(Header::parse(&bytes), Some(h));
    assert_eq!(Header::parse(&bytes[..31]), None);
}

#[test]
fn words_are_little_endian_and_padded() {
    let mut it = U64Iterator::new(vec![1, 2, 3, 4, 5, 6, 7, 8, 9, 10]);
    assert_eq!(it.next(), Some(0x0807_0605_0403_0201));
    assert_eq!(it.next(), Some(0x0A09));
    assert_eq!(it.next(), None);
    let mut empty = U64Iterator::new(Vec::new());
    assert_eq!(empty.next(), None);
}

#[test]
fn fresh_randomness_for_each_encoding() {
    let a = encode_shares(vec![0x41], 3, 2).unwrap();
    let b = encode_shares(vec![0x41], 3, 2).unwrap();
    assert_ne!(a[0], b[0]);
    assert_eq!(decode_shares(&pick(&a, &[0, 2])).unwrap(), decode_shares(&pick(&b, &[1, 0])).unwrap());
}
