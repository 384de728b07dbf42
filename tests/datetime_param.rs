use clickhouse_codec::datetime_params::DateTimeParam;
use clickhouse_codec::error::{CodecError, Rendered, SerializationContext};
use clickhouse_codec::param::{ClickHouseParam, TypedValue};

fn text_of(secs: i64) -> String {
    match DateTimeParam::new(secs).serialize(SerializationContext::TextLiteral) {
        Ok(Rendered::Text(t)) => t,
        other => panic!("unexpected text rendering: {:?}", other),
    }
}

fn bytes_of(secs: i64) -> Vec<u8> {
    match DateTimeParam::new(secs).serialize(SerializationContext::NativeBinary) {
        Ok(Rendered::Binary(b)) => b,
        other => panic!("unexpected binary rendering: {:?}", other),
    }
}

#[test]
fn smoke() {
    let dt = DateTimeParam::new(1704207845);
    assert_eq!(text_of(dt.timestamp()), "2024-01-02 15:04:05");
    assert_eq!(bytes_of(dt.timestamp()), 1704207845u32.to_le_bytes().to_vec());
    let (back, n) = DateTimeParam::from_binary(&bytes_of(1704207845), 0).unwrap();
    assert_eq!(back, dt);
    assert_eq!(n, 4);
}

#[test]
fn datetime_param_basic() {
    let dt = DateTimeParam(1718447400);
    let text = text_of(dt.0);
    assert_eq!(text, "2024-06-15 10:30:00");
    assert_eq!(DateTimeParam::from_literal(&text), Ok(dt));
}

#[test]
fn datetime_param_multiple() {
    let start = DateTimeParam(1704067200);
    let end = DateTimeParam(1735689599);
    assert_eq!(text_of(start.0), "2024-01-01 00:00:00");
    assert_eq!(text_of(end.0), "2024-12-31 23:59:59");
    assert_eq!(DateTimeParam::from_literal("2024-01-01 00:00:00"), Ok(start));
    assert_eq!(DateTimeParam::from_literal("2024-12-31 23:59:59"), Ok(end));
}

#[test]
fn datetime_param_where_clause() {
    let dt = DateTimeParam(1717243200);
    assert_eq!(text_of(dt.0), "2024-06-01 12:00:00");
    assert_eq!(DateTimeParam::from_literal("2024-06-01 12:00:00"), Ok(dt));
}

#[test]
fn binary_rejects_instant_before_epoch() {
    let r = DateTimeParam::new(-1).serialize(SerializationContext::NativeBinary);
    assert!(matches!(r, Err(CodecError::Range { instant: -1 })));
}

#[test]
fn binary_rejects_instant_past_u32() {
    let secs = u32::MAX as i64 + 1;
    let r = DateTimeParam::new(secs).serialize(SerializationContext::NativeBinary);
    assert!(matches!(r, Err(CodecError::Range { instant }) if instant == secs));
}

#[test]
fn window_edges_render_in_both_modes() {
    assert_eq!(text_of(0), "1970-01-01 00:00:00");
    assert_eq!(bytes_of(0), vec![0, 0, 0, 0]);
    assert_eq!(text_of(4294967295), "2106-02-07 06:28:15");
    assert_eq!(bytes_of(4294967295), vec![0xff, 0xff, 0xff, 0xff]);
}

#[test]
fn binary_bytes_are_little_endian() {
    assert_eq!(bytes_of(1704207845), vec![0xe5, 0x25, 0x94, 0x65]);
}

#[test]
fn text_outside_u32_window_still_renders() {
    assert_eq!(text_of(-1), "1969-12-31 23:59:59");
    assert_eq!(text_of(-2208988800), "1900-01-01 00:00:00");
    assert_eq!(DateTimeParam::from_literal("1900-01-01 00:00:00"), Ok(DateTimeParam(-2208988800)));
}

#[test]
fn text_rejects_years_past_four_digits() {
    let r = DateTimeParam::new(253402300800).serialize(SerializationContext::TextLiteral);
    assert!(matches!(r, Err(CodecError::Range { instant: 253402300800 })));
}

#[test]
fn temporal_round_trip_both_modes() {
    let samples: [i64; 7] = [0, 1, 59, 86399, 951782400, 1709164800, 4294967295];
    for secs in samples {
        let text = text_of(secs);
        assert_eq!(DateTimeParam::from_literal(&text), Ok(DateTimeParam(secs)));
        let bytes = bytes_of(secs);
        assert_eq!(DateTimeParam::from_binary(&bytes, 0), Ok((DateTimeParam(secs), 4)));
    }
    let mut secs: i64 = 0;
    while secs <= 4294967295 {
        let text = text_of(secs);
        assert_eq!(DateTimeParam::from_literal(&text), Ok(DateTimeParam(secs)));
        secs += 7_777_777;
    }
}

#[test]
fn leap_day_parses() {
    assert_eq!(DateTimeParam::from_literal("2024-02-29 00:00:00"), Ok(DateTimeParam(1709164800)));
    assert_eq!(text_of(1709164800), "2024-02-29 00:00:00");
}

#[test]
fn malformed_literals_are_rejected() {
    let bad = [
        "2023-02-29 00:00:00",
        "2024-13-01 00:00:00",
        "2024-00-10 00:00:00",
        "2024-04-31 00:00:00",
        "2024-01-02 24:00:00",
        "2024-01-02 15:60:05",
        "2024-01-02 15:04:60",
        "2024-1-02 15:04:05",
        "2024-01-02T15:04:05",
        "2024-01-02 15:04:05Z",
        "",
    ];
    for t in bad {
        assert_eq!(DateTimeParam::from_literal(t), Err(CodecError::MalformedLiteral), "{}", t);
    }
}

#[test]
fn binary_decode_reads_at_offset_and_detects_truncation() {
    let mut b = vec![9u8, 9];
    b.extend_from_slice(&1704207845u32.to_le_bytes());
    b.push(7);
    assert_eq!(DateTimeParam::from_binary(&b, 2), Ok((DateTimeParam(1704207845), 4)));
    assert_eq!(DateTimeParam::from_binary(&b, 4), Err(CodecError::Truncated));
    assert_eq!(DateTimeParam::from_binary(&b, 40), Err(CodecError::Truncated));
}

#[test]
fn param_trait_delegates_to_value_serializer() {
    let dt = DateTimeParam::new(1704207845);
    match dt.serialize_param(SerializationContext::TextLiteral) {
        Ok(Rendered::Text(t)) => assert_eq!(t, "2024-01-02 15:04:05"),
        other => panic!("unexpected: {:?}", other),
    }
    match dt.serialize_param(SerializationContext::NativeBinary) {
        Ok(Rendered::Binary(b)) => assert_eq!(b, 1704207845u32.to_le_bytes().to_vec()),
        other => panic!("unexpected: {:?}", other),
    }
    assert!(matches!(
        DateTimeParam::new(-1).serialize_param(SerializationContext::NativeBinary),
        Err(CodecError::Range { instant: -1 })
    ));
}
