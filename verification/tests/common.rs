use infralens::bytes::{push_le, read_le};
use infralens::common::config::{config_files, InfraLensConfig};
use infralens::common::error::CommonError;
use infralens::common::model::{get_attr, put_attr, AnyValue, IngestBatch, SignalType};
use infralens::common::schema::{log_schema, metric_schema, span_schema, DataType};
use infralens::float::{
    float_of_signed, float_of_unsigned, float_pair, floats_of_signed, number_less, round,
    total_less, FloatOp,
};
use infralens::hash::{hash_bytes, seeded_hash};
use infralens::sha256::{digest, short_digest};
use infralens::text::{parse_i64, parse_u64, to_lowercase, to_uppercase, trim};

#[test]
fn default_settings() {
    let c = InfraLensConfig::default();
    assert_eq!(c.server.grpc_addr, "0.0.0.0:4317");
    assert_eq!(c.server.http_addr, "0.0.0.0:4318");
    assert_eq!(c.server.metrics_addr, "0.0.0.0:9090");
    assert_eq!(c.storage.data_dir, "./data");
    assert_eq!(c.storage.memtable_size_bytes, 64 * 1024 * 1024);
    assert_eq!(c.storage.l0_compaction_trigger, 4);
    assert_eq!(c.storage.partition_hours, 1);
    assert_eq!(config_files("prod"), vec!["config/default", "config/prod"]);
}

#[test]
fn signal_bytes() {
    for s in [SignalType::Log, SignalType::Metric, SignalType::Span] {
        assert_eq!(SignalType::try_from(s.as_u8()).unwrap(), s);
    }
    assert_eq!(SignalType::Span.as_u8(), 2);
    let e = SignalType::try_from(7).unwrap_err();
    assert_eq!(e.message(), "invalid signal type byte: 7");
    assert_eq!(CommonError::Io("x".to_string()).message(), "io error: x");
    assert_eq!(
        CommonError::Serialisation("x".to_string()).message(),
        "serialisation error: x"
    );
}

#[test]
fn attributes_are_a_map() {
    let mut attrs = Vec::new();
    put_attr(&mut attrs, "a".to_string(), AnyValue::from(1i64));
    put_attr(&mut attrs, "b".to_string(), AnyValue::from("x"));
    put_attr(&mut attrs, "a".to_string(), AnyValue::from(true));
    assert_eq!(attrs.len(), 2);
    assert!(matches!(get_attr(&attrs, "a"), Some(AnyValue::Bool(true))));
    assert!(get_attr(&attrs, "c").is_none());
}

#[test]
fn batches_know_their_signal() {
    let b = IngestBatch::Spans(Vec::new());
    assert_eq!(b.signal_type(), SignalType::Span);
    assert_eq!(b.len(), 0);
    assert!(b.is_empty());
}

#[test]
fn table_schemas() {
    assert_eq!(log_schema().fields[0].name, "timestamp_ns");
    assert!(matches!(log_schema().fields[0].data_type, DataType::UInt64));
    assert_eq!(metric_schema().index_of("name"), Some(2));
    assert_eq!(span_schema().index_of("nope"), None);
}

#[test]
fn little_endian() {
    let mut out = Vec::new();
    push_le(&mut out, 0x0102_0304_0506_0708, 8);
    assert_eq!(out, 0x0102_0304_0506_0708u64.to_le_bytes());
    assert_eq!(read_le(&out, 0, 8), 0x0102_0304_0506_0708);
    assert_eq!(read_le(&out, 4, 4), 0x0102_0304);
}

#[test]
fn hashes_differ_by_seed() {
    assert_ne!(hash_bytes(b"a"), hash_bytes(b"b"));
    assert_ne!(seeded_hash(b"a", 1), seeded_hash(b"a", 2));
    assert_eq!(seeded_hash(b"a", 1), seeded_hash(b"a", 1));
}

#[test]
fn texts() {
    assert_eq!(to_lowercase("SeLecT 1"), "select 1");
    assert_eq!(to_uppercase("SeLecT 1"), "SELECT 1");
    assert_eq!(trim(" \t a b \n"), "a b");
    assert_eq!(parse_i64("-42"), Some(-42));
    assert_eq!(parse_i64("+7"), Some(7));
    assert_eq!(parse_i64("9223372036854775808"), None);
    assert_eq!(parse_i64("-9223372036854775808"), Some(i64::MIN));
    assert_eq!(parse_i64(""), None);
    assert_eq!(parse_i64("-"), None);
    assert_eq!(parse_u64("18446744073709551615"), Some(u64::MAX));
    assert_eq!(parse_u64("18446744073709551616"), None);
    assert_eq!(parse_u64("-1"), None);
}

#[test]
fn float_kernels() {
    let f = |op, a: f64, b: f64| f64::from_bits(float_pair(op, a.to_bits(), b.to_bits()));
    assert_eq!(f(FloatOp::Plus, 0.1, 0.2), 0.1 + 0.2);
    assert_eq!(f(FloatOp::Minus, 1.0, 0.75), 0.25);
    assert_eq!(f(FloatOp::Times, 3.0, 7.5), 22.5);
    assert_eq!(f(FloatOp::Over, 1.0, 3.0), 1.0 / 3.0);
    assert_eq!(f(FloatOp::Over, 1.0, 0.0), f64::INFINITY);
    assert!(f(FloatOp::Over, 0.0, 0.0).is_nan());
    assert_eq!(f64::from_bits(float_of_signed(-3)), -3.0);
    assert_eq!(f64::from_bits(float_of_unsigned(u64::MAX)), u64::MAX as f64);
    assert_eq!(floats_of_signed(&vec![i64::MIN]), vec![(i64::MIN as f64).to_bits()]);
}

#[test]
fn float_order() {
    let less = |a: f64, b: f64| number_less(a.to_bits(), b.to_bits());
    assert!(less(-1.0, 1.0));
    assert!(!less(0.0, -0.0));
    assert!(!less(-0.0, 0.0));
    assert!(!less(f64::NAN, 1.0));
    assert!(total_less((-0.0f64).to_bits(), 0.0f64.to_bits()));
    assert!(total_less(f64::INFINITY.to_bits(), f64::NAN.to_bits()));
}

#[test]
fn float_rounding() {
    for x in [0.0, 0.4, 0.5, 1.5, 2.5, 2.499999, -0.5, -2.5, 1e300, 4503599627370495.5, f64::NAN] {
        let want = f64::round(x) as u64;
        assert_eq!(round(x.to_bits()), want, "round of {x}");
    }
}

fn hex(bytes: &[u8]) -> String {
    bytes.iter().map(|b| format!("{b:02x}")).collect()
}

#[test]
fn sha256_digests() {
    assert_eq!(
        hex(&digest(b"")),
        "e3b0c44298fc1c149afbf4c8996fb92427ae41e4649b934ca495991b7852b855"
    );
    assert_eq!(
        hex(&digest(b"abc")),
        "ba7816bf8f01cfea414140de5dae2223b00361a396177a9cb410ff61f20015ad"
    );
    assert_eq!(
        hex(&digest(b"abcdbcdecdefdefgefghfghighijhijkijkljklmklmnlmnomnopnopq")),
        "248d6a61d20638b8e5c026930c3e6039a33ce45964ff2167f6ecedd419db06c1"
    );
    assert_eq!(
        hex(&digest(&[b'a'; 55])),
        "9f4390f8d30c2dd92ec9f095b65e2b9ae9b0a925a5258e241c9f1e910f734318"
    );
    assert_eq!(
        hex(&digest(&[b'a'; 64])),
        "ffe054fe7ae0cb6dc65c3af9b61d5209f439851db43d0ba5997337df154668eb"
    );
    assert_eq!(
        hex(&digest(&[b'a'; 1000])),
        "41edece42d63e8d9bf515a9ba6932e1c20cbc9f5a5d134645adb5db1b9737ea3"
    );
    assert_eq!(short_digest(b"abc"), 0xba7816bf8f01cfea);
}
