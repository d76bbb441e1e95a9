use rs_erasure::decoding::handle_decode;
use rs_erasure::encoding::{check_params, handle_encode, split_into_shards};
use rs_erasure::error::CodecError;
use rs_erasure::gf256::Gf256;
use rs_erasure::layout::{metadata_file_name, shard_file_name};
use rs_erasure::matrix::build_vandermonde;
use rs_erasure::metadata::{format_metadata, parse_metadata, parse_number, Metadata};
use rs_erasure::reconstruct_shards::{scan_shards, Codec};

fn sample_file(len: usize) -> Vec<u8> {
    let mut state: u32 = 0x9e37_79b9;
    (0..len)
        .map(|_| {
            state ^= state << 13;
            state ^= state >> 17;
            state ^= state << 5;
            (state >> 11) as u8
        })
        .collect()
}

fn slots(shards: &[Vec<u8>]) -> Vec<Option<Vec<u8>>> {
    shards.iter().map(|s| Some(s.clone())).collect()
}

#[test]
fn encode_refuses_counts_that_the_field_does_not_allow() {
    let buf = sample_file(100);
    for (k, m) in [(0usize, 4usize), (4, 0), (0, 0), (128, 128), (255, 1), (1, 255), (300, 1)] {
        match handle_encode(k, m, &buf) {
            Err(e) => assert_eq!(e, CodecError::InvalidParameters),
            Ok(_) => panic!("k = {}, m = {} was accepted", k, m),
        }
        assert!(!check_params(k, m));
    }
    assert!(handle_encode(usize::MAX, usize::MAX, &buf).is_err());
    assert!(check_params(254, 1));
    assert!(check_params(1, 254));
    assert!(handle_encode(200, 55, &buf).is_ok());
}

#[test]
fn padded_file_comes_back_byte_for_byte() {
    let buf = sample_file(1_000_001);
    let encoded = handle_encode(10, 4, &buf).unwrap();
    assert_eq!(encoded.shards.len(), 14);
    for shard in &encoded.shards {
        assert_eq!(shard.len(), 100_001);
    }
    assert_eq!(&encoded.shards[9][99_992..], &[0u8; 9][..]);
    assert_eq!(encoded.shards[9][99_991], buf[1_000_000]);
    assert_eq!(
        encoded.metadata,
        Metadata { orig_len: 1_000_001, k: 10, m: 4 }
    );
    let mut shards = slots(&encoded.shards);
    shards[9] = None;
    let file = handle_decode(&encoded.metadata, shards).unwrap();
    assert_eq!(file.len(), 1_000_001);
    assert_eq!(file, buf);
}

#[test]
fn every_loss_of_up_to_m_shards_is_survived() {
    let buf = sample_file(1234);
    let (k, m) = (4usize, 3usize);
    let encoded = handle_encode(k, m, &buf).unwrap();
    for mask in 0u32..(1 << (k + m)) {
        if mask.count_ones() as usize > m {
            continue;
        }
        let mut shards = slots(&encoded.shards);
        for i in 0..k + m {
            if mask & (1 << i) != 0 {
                shards[i] = None;
            }
        }
        assert_eq!(handle_decode(&encoded.metadata, shards), Ok(buf.clone()));
    }
}

#[test]
fn data_shards_are_the_file_in_order() {
    let buf: Vec<u8> = (1..=10).collect();
    let shards = split_into_shards(&buf, 4);
    assert_eq!(
        shards,
        vec![vec![1, 2, 3], vec![4, 5, 6], vec![7, 8, 9], vec![10, 0, 0]]
    );
    let shards = split_into_shards(&buf, 5);
    assert_eq!(
        shards,
        vec![vec![1, 2], vec![3, 4], vec![5, 6], vec![7, 8], vec![9, 10]]
    );
    let shards = split_into_shards(&buf[..2], 4);
    assert_eq!(shards, vec![vec![1], vec![2], vec![0], vec![0]]);
    let shards = split_into_shards(&[], 3);
    assert_eq!(shards, vec![Vec::<u8>::new(); 3]);
}

#[test]
fn parity_shards_follow_the_data_shards() {
    let gf = Gf256::new();
    let buf: Vec<u8> = (1..=10).collect();
    let encoded = handle_encode(4, 2, &buf).unwrap();
    assert_eq!(encoded.shards.len(), 6);
    assert_eq!(&encoded.shards[..4], &split_into_shards(&buf, 4)[..]);
    let v = build_vandermonde(&gf, 4, 2);
    for r in 0..2 {
        for t in 0..3 {
            let mut want = 0u8;
            for c in 0..4 {
                want ^= gf.mul(v[r][c], encoded.shards[c][t]);
            }
            assert_eq!(encoded.shards[4 + r][t], want);
        }
    }
}

#[test]
fn empty_file_has_empty_shards() {
    let encoded = handle_encode(3, 2, &[]).unwrap();
    assert_eq!(encoded.shards, vec![Vec::<u8>::new(); 5]);
    let mut shards = slots(&encoded.shards);
    shards[0] = None;
    shards[4] = None;
    assert_eq!(handle_decode(&encoded.metadata, shards), Ok(vec![]));
}

#[test]
fn decode_without_loss_needs_no_reconstruction() {
    let buf = sample_file(777);
    let encoded = handle_encode(7, 3, &buf).unwrap();
    assert_eq!(
        handle_decode(&encoded.metadata, slots(&encoded.shards)),
        Ok(buf)
    );
}

#[test]
fn decode_cuts_to_the_recorded_length() {
    let shards = vec![Some(vec![1u8, 2, 3]), Some(vec![4, 5, 6]), Some(vec![9, 9, 9])];
    let meta = Metadata { orig_len: 4, k: 2, m: 1 };
    assert_eq!(handle_decode(&meta, shards.clone()), Ok(vec![1, 2, 3, 4]));
    let meta = Metadata { orig_len: 6, k: 2, m: 1 };
    assert_eq!(handle_decode(&meta, shards.clone()), Ok(vec![1, 2, 3, 4, 5, 6]));
    let meta = Metadata { orig_len: 60, k: 2, m: 1 };
    assert_eq!(handle_decode(&meta, shards.clone()), Ok(vec![1, 2, 3, 4, 5, 6]));
    let meta = Metadata { orig_len: 0, k: 2, m: 1 };
    assert_eq!(handle_decode(&meta, shards), Ok(vec![]));
}

#[test]
fn record_that_does_not_fit_the_shards_is_refused() {
    let buf = sample_file(50);
    let encoded = handle_encode(3, 2, &buf).unwrap();
    let mut short = slots(&encoded.shards);
    short.pop();
    assert_eq!(
        handle_decode(&encoded.metadata, short),
        Err(CodecError::MetadataError)
    );
    for (k, m) in [(0usize, 5usize), (5, 0), (200, 56)] {
        let meta = Metadata { orig_len: 50, k, m };
        let shards = vec![Some(vec![0u8; 4]); k + m];
        assert_eq!(handle_decode(&meta, shards), Err(CodecError::MetadataError));
    }
}

#[test]
fn decode_passes_on_what_reconstruction_refuses() {
    let buf = sample_file(64);
    let encoded = handle_encode(4, 2, &buf).unwrap();
    let mut shards = slots(&encoded.shards);
    shards[0] = None;
    shards[1] = None;
    shards[5] = None;
    assert_eq!(
        handle_decode(&encoded.metadata, shards),
        Err(CodecError::Insufficient)
    );
    let mut shards = slots(&encoded.shards);
    shards[0] = None;
    shards[3] = Some(vec![1, 2, 3]);
    assert_eq!(
        handle_decode(&encoded.metadata, shards),
        Err(CodecError::ShapeError)
    );
}

#[test]
fn survivors_with_dependent_rows_are_reported() {
    let buf = sample_file(500);
    let (k, m) = (5usize, 6usize);
    let encoded = handle_encode(k, m, &buf).unwrap();
    let mut shards = slots(&encoded.shards);
    for i in [0usize, 3, 4, 6, 8, 9] {
        shards[i] = None;
    }
    let before = shards.clone();
    let mut codec = Codec::new(k, m);
    assert_eq!(
        codec.reconstruct(&mut shards),
        Err(CodecError::SingularMatrix)
    );
    assert_eq!(shards, before);
    assert_eq!(
        handle_decode(&encoded.metadata, shards),
        Err(CodecError::SingularMatrix)
    );
}

#[test]
fn scan_lists_present_and_missing_slots() {
    let shards = vec![None, Some(vec![1u8, 2]), None, Some(vec![3, 4]), Some(vec![5, 6])];
    let scan = scan_shards(&shards);
    assert_eq!(scan.present, vec![1, 3, 4]);
    assert_eq!(scan.missing, vec![0, 2]);
    assert_eq!(scan.shard_len, 2);
    assert!(scan.uniform);
    let shards = vec![Some(vec![1u8, 2]), Some(vec![3])];
    let scan = scan_shards(&shards);
    assert_eq!(scan.shard_len, 2);
    assert!(!scan.uniform);
    let scan = scan_shards(&vec![None, None]);
    assert_eq!(scan.present, Vec::<usize>::new());
    assert_eq!(scan.shard_len, 0);
    assert!(scan.uniform);
}

#[test]
fn record_is_two_lines_of_decimal_numbers() {
    let meta = Metadata { orig_len: 1_000_001, k: 10, m: 4 };
    assert_eq!(format_metadata(&meta), b"1000001\n10 4\n".to_vec());
    let meta = Metadata { orig_len: 0, k: 1, m: 254 };
    assert_eq!(format_metadata(&meta), b"0\n1 254\n".to_vec());
    let meta = Metadata { orig_len: usize::MAX, k: 7, m: 90 };
    assert_eq!(
        format_metadata(&meta),
        format!("{}\n7 90\n", usize::MAX).into_bytes()
    );
}

#[test]
fn record_reads_back_as_written() {
    for meta in [
        Metadata { orig_len: 0, k: 0, m: 0 },
        Metadata { orig_len: 9, k: 10, m: 99 },
        Metadata { orig_len: 1_000_001, k: 10, m: 4 },
        Metadata { orig_len: usize::MAX, k: usize::MAX, m: usize::MAX - 1 },
    ] {
        assert_eq!(parse_metadata(&format_metadata(&meta)), Ok(meta));
    }
    assert_eq!(
        parse_metadata(b"8192\n10 4\n"),
        Ok(Metadata { orig_len: 8192, k: 10, m: 4 })
    );
}

#[test]
fn text_that_is_no_record_is_refused() {
    let bad: [&[u8]; 16] = [
        b"",
        b"\n",
        b"12",
        b"12\n",
        b"12\n3",
        b"12\n3 4",
        b"12\n3 4\n\n",
        b"12\n3 4\n5",
        b"12\n3  4\n",
        b"12\n3\t4\n",
        b" 12\n3 4\n",
        b"012\n3 4\n",
        b"12\n03 4\n",
        b"12\n3 -4\n",
        b"12\r\n3 4\r\n",
        b"x\n3 4\n",
    ];
    for text in bad {
        assert_eq!(parse_metadata(text), Err(CodecError::MetadataError));
    }
    let too_big = format!("{}0\n3 4\n", usize::MAX);
    assert_eq!(
        parse_metadata(too_big.as_bytes()),
        Err(CodecError::MetadataError)
    );
    let too_big = format!("1\n3 {}\n", (usize::MAX as u128) + 1);
    assert_eq!(
        parse_metadata(too_big.as_bytes()),
        Err(CodecError::MetadataError)
    );
}

#[test]
fn numeral_ends_at_the_first_byte_that_is_no_digit() {
    assert_eq!(parse_number(b"120 7", 0), Some((120, 3)));
    assert_eq!(parse_number(b"120 7", 4), Some((7, 5)));
    assert_eq!(parse_number(b"0", 0), Some((0, 1)));
    assert_eq!(parse_number(b"0x", 0), Some((0, 1)));
    assert_eq!(parse_number(b"00", 0), None);
    assert_eq!(parse_number(b"120 7", 3), None);
    assert_eq!(parse_number(b"120 7", 5), None);
    assert_eq!(parse_number(b"120 7", 50), None);
    let max = format!("{}", usize::MAX);
    assert_eq!(parse_number(max.as_bytes(), 0), Some((usize::MAX, max.len())));
}

#[test]
fn shard_names_carry_two_digits() {
    assert_eq!(shard_file_name(0), b"shard_00.dat".to_vec());
    assert_eq!(shard_file_name(7), b"shard_07.dat".to_vec());
    assert_eq!(shard_file_name(13), b"shard_13.dat".to_vec());
    assert_eq!(shard_file_name(99), b"shard_99.dat".to_vec());
    assert_eq!(shard_file_name(100), b"shard_100.dat".to_vec());
    assert_eq!(shard_file_name(254), b"shard_254.dat".to_vec());
    assert_eq!(metadata_file_name(), b"meta.txt".to_vec());
    for i in 0..255usize {
        assert_eq!(shard_file_name(i), format!("shard_{:02}.dat", i).into_bytes());
        for j in 0..i {
            assert_ne!(shard_file_name(i), shard_file_name(j));
        }
    }
}
