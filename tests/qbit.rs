use clickhouse_codec::containers::{
    decode_array, decode_nullable, encode_array, encode_nullable, encode_nullable_rows,
};
use clickhouse_codec::error::CodecError;
use clickhouse_codec::qbit::{QBit, ScalarType};

fn scalar_of(bits: usize) -> ScalarType {
    match bits {
        16 => ScalarType::BFloat16,
        32 => ScalarType::Float32,
        _ => ScalarType::Float64,
    }
}

fn patterned(dim: usize, bits: usize, seed: usize) -> Vec<Vec<u8>> {
    (0..bits)
        .map(|i| (0..dim).map(|j| ((i * 7 + j * 3 + seed) % 5 == 0) as u8).collect())
        .collect()
}

fn encoded(q: &QBit) -> Vec<u8> {
    let mut out = Vec::new();
    q.encode(&mut out);
    out
}

#[test]
fn qbit_roundtrip() {
    let cases = [(128usize, ScalarType::BFloat16, 1u8), (256, ScalarType::Float32, 0), (512, ScalarType::Float64, 1)];
    for (dim, scalar, byte) in cases {
        let bits = scalar.bit_depth();
        let q = QBit::from_planes(vec![vec![byte; dim]; bits], scalar).unwrap();
        let plain = encoded(&q);
        let (back, n) = QBit::decode(&plain, 0, dim, scalar).unwrap();
        assert_eq!(back.planes(), q.planes());
        assert_eq!(n, dim * bits);

        let mut nullable = Vec::new();
        encode_nullable(&Some(q.clone()), &mut nullable);
        let (opt, m) = decode_nullable(&nullable, 0, dim, scalar).unwrap();
        assert_eq!(opt.unwrap().planes(), q.planes());
        assert_eq!(m, 1 + dim * bits);
    }
}

#[test]
fn concrete_all_ones_scenario() {
    let q = QBit::from_planes(vec![vec![1u8; 128]; 16], ScalarType::BFloat16).unwrap();
    let bytes = encoded(&q);
    assert_eq!(bytes.len(), 2048);
    assert!(bytes.iter().all(|&b| b == 1));
    let (back, n) = QBit::decode(&bytes, 0, 128, ScalarType::BFloat16).unwrap();
    assert_eq!(n, 2048);
    assert_eq!(back.bit_depth(), 16);
    assert_eq!(back.dimension(), 128);
    assert_eq!(back.planes(), &vec![vec![1u8; 128]; 16]);
}

#[test]
fn round_trip_over_all_dimensions_and_depths() {
    for dim in [64usize, 128, 256, 512, 1024] {
        for bits in [16usize, 32, 64] {
            let planes = patterned(dim, bits, dim + bits);
            let q = QBit::from_planes(planes.clone(), scalar_of(bits)).unwrap();
            let mut bytes = vec![0xAAu8; 3];
            q.encode(&mut bytes);
            bytes.push(0xBB);
            assert_eq!(bytes.len(), 4 + dim * bits);
            let (back, n) = QBit::decode(&bytes, 3, dim, scalar_of(bits)).unwrap();
            assert_eq!(back.planes(), &planes);
            assert_eq!(n, dim * bits);
        }
    }
}

#[test]
fn planes_are_written_in_ascending_order() {
    let mut planes = vec![vec![0u8; 4]; 16];
    planes[0] = vec![1, 0, 0, 0];
    planes[15] = vec![0, 0, 0, 1];
    let q = QBit::from_planes(planes, ScalarType::BFloat16).unwrap();
    let bytes = encoded(&q);
    assert_eq!(&bytes[..4], &[1, 0, 0, 0]);
    assert_eq!(&bytes[60..], &[0, 0, 0, 1]);
}

#[test]
fn wrong_plane_count_is_a_shape_error() {
    let r = QBit::from_planes(vec![vec![0u8; 64]; 15], ScalarType::BFloat16);
    assert_eq!(r.err(), Some(CodecError::Shape));
    let r = QBit::from_planes(vec![vec![0u8; 64]; 16], ScalarType::Float32);
    assert_eq!(r.err(), Some(CodecError::Shape));
    let r = QBit::from_planes(Vec::new(), ScalarType::Float64);
    assert_eq!(r.err(), Some(CodecError::Shape));
}

#[test]
fn unequal_plane_lengths_are_a_shape_error() {
    let mut planes = vec![vec![0u8; 64]; 32];
    planes[31] = vec![0u8; 63];
    assert_eq!(QBit::from_planes(planes, ScalarType::Float32).err(), Some(CodecError::Shape));
    let empty = vec![Vec::new(); 16];
    assert_eq!(QBit::from_planes(empty, ScalarType::BFloat16).err(), Some(CodecError::Shape));
}

#[test]
fn non_flag_byte_is_a_format_error_at_the_first_place() {
    let mut planes = vec![vec![0u8; 8]; 16];
    planes[3][5] = 2;
    planes[9][0] = 7;
    let r = QBit::from_planes(planes, ScalarType::BFloat16);
    assert_eq!(r.err(), Some(CodecError::Format { plane: 3, offset: 5 }));
}

#[test]
fn decode_reports_truncation_and_bad_bytes() {
    let bytes = vec![1u8; 2047];
    assert_eq!(QBit::decode(&bytes, 0, 128, ScalarType::BFloat16).err(), Some(CodecError::Truncated));
    assert_eq!(QBit::decode(&bytes, 5000, 1, ScalarType::BFloat16).err(), Some(CodecError::Truncated));
    let mut bytes = vec![0u8; 64];
    bytes[20] = 3;
    assert_eq!(
        QBit::decode(&bytes, 0, 4, ScalarType::BFloat16).err(),
        Some(CodecError::Format { plane: 5, offset: 0 })
    );
    assert_eq!(QBit::decode(&bytes, 0, 0, ScalarType::BFloat16).err(), Some(CodecError::Shape));
}

#[test]
fn nullable_rows_interleaved() {
    let dim = 64;
    let rows: Vec<Option<QBit>> = (0..6)
        .map(|k| {
            if k % 2 == 1 || k == 4 {
                None
            } else {
                Some(QBit::from_planes(patterned(dim, 16, k), ScalarType::BFloat16).unwrap())
            }
        })
        .collect();
    let mut bytes = Vec::new();
    encode_nullable_rows(&rows, &mut bytes);
    let mut one_by_one = Vec::new();
    for row in &rows {
        encode_nullable(row, &mut one_by_one);
    }
    assert_eq!(bytes, one_by_one);
    assert_eq!(bytes[0], 0);
    assert_eq!(bytes[1 + dim * 16], 1);
    assert_eq!(bytes[2 + dim * 16], 0);
    let present = rows.iter().filter(|r| r.is_some()).count();
    assert_eq!(bytes.len(), rows.len() + present * dim * 16);
    let mut pos = 0;
    for row in &rows {
        let (got, n) = decode_nullable(&bytes, pos, dim, ScalarType::BFloat16).unwrap();
        match (row, got) {
            (None, None) => assert_eq!(n, 1),
            (Some(want), Some(got)) => {
                assert_eq!(got.planes(), want.planes());
                assert_eq!(n, 1 + dim * 16);
            }
            _ => panic!("presence changed"),
        }
        pos += n;
    }
    assert_eq!(pos, bytes.len());
}

#[test]
fn nullable_flags_and_errors() {
    let mut bytes = Vec::new();
    encode_nullable(&None, &mut bytes);
    assert_eq!(bytes, vec![1]);
    assert_eq!(decode_nullable(&[2u8], 0, 4, ScalarType::BFloat16).err(), Some(CodecError::InvalidNullFlag));
    assert_eq!(decode_nullable(&[], 0, 4, ScalarType::BFloat16).err(), Some(CodecError::Truncated));
    assert_eq!(decode_nullable(&[0u8, 1, 1], 0, 4, ScalarType::BFloat16).err(), Some(CodecError::Truncated));
}

#[test]
fn array_of_two_round_trips() {
    let a = QBit::from_planes(patterned(128, 32, 1), ScalarType::Float32).unwrap();
    let b = QBit::from_planes(patterned(128, 32, 2), ScalarType::Float32).unwrap();
    let mut bytes = vec![0x55u8];
    encode_array(&vec![a.clone(), b.clone()], &mut bytes);
    assert_eq!(&bytes[1..5], &[2, 0, 0, 0]);
    assert_eq!(bytes.len(), 1 + 4 + 2 * 128 * 32);
    let (items, n) = decode_array(&bytes, 1, 128, ScalarType::Float32).unwrap();
    assert_eq!(n, 4 + 2 * 128 * 32);
    assert_eq!(items.len(), 2);
    assert_eq!(items[0].planes(), a.planes());
    assert_eq!(items[1].planes(), b.planes());
}

#[test]
fn empty_array_and_short_array() {
    let mut bytes = Vec::new();
    encode_array(&Vec::new(), &mut bytes);
    assert_eq!(bytes, vec![0, 0, 0, 0]);
    let (items, n) = decode_array(&bytes, 0, 64, ScalarType::Float64).unwrap();
    assert!(items.is_empty());
    assert_eq!(n, 4);
    assert_eq!(decode_array(&[1u8, 0, 0], 0, 4, ScalarType::Float64).err(), Some(CodecError::Truncated));
    assert_eq!(decode_array(&[1u8, 0, 0, 0, 1], 0, 4, ScalarType::Float64).err(), Some(CodecError::Truncated));
}

#[test]
fn encoded_len_matches_encoding() {
    for bits in [16usize, 32, 64] {
        let q = QBit::from_planes(patterned(100, bits, 4), scalar_of(bits)).unwrap();
        assert_eq!(q.encoded_len(), 100 * bits);
        assert_eq!(encoded(&q).len(), q.encoded_len());
    }
}

#[test]
fn equality_compares_every_byte() {
    let a = QBit::from_planes(patterned(64, 16, 1), ScalarType::BFloat16).unwrap();
    let same = QBit::from_planes(patterned(64, 16, 1), ScalarType::BFloat16).unwrap();
    let mut planes = patterned(64, 16, 1);
    planes[15][63] ^= 1;
    let other = QBit::from_planes(planes, ScalarType::BFloat16).unwrap();
    let wider = QBit::from_planes(patterned(64, 32, 1), ScalarType::Float32).unwrap();
    assert!(a == same);
    assert!(a.same_planes(&same));
    assert!(a != other);
    assert!(!a.same_planes(&wider));
}
