use ferroqueue::broker::{ack, Code};
use ferroqueue::codec::{
    put_i64, put_option, put_str, put_u128, put_u32, put_u64, take_i64, take_option, take_string,
    take_u128, take_u32, take_u64,
};
use ferroqueue::ids::derive_id;
use ferroqueue::state::{QueueState, Record};
use ferroqueue::text::{decimal_text, join, prefixed};
use ferroqueue::transport::MemoryCluster;

#[test]
fn numbers_take_as_few_bytes_as_they_need() {
    let cases: Vec<(u64, Vec<u8>)> = vec![
        (0, vec![0]),
        (250, vec![250]),
        (251, vec![251, 251, 0]),
        (65_535, vec![251, 255, 255]),
        (65_536, vec![252, 0, 0, 1, 0]),
        (u32::MAX as u64, vec![252, 255, 255, 255, 255]),
        (1 << 32, vec![253, 0, 0, 0, 0, 1, 0, 0, 0]),
        (u64::MAX, vec![253, 255, 255, 255, 255, 255, 255, 255, 255]),
    ];
    for (value, bytes) in cases {
        let mut out = vec![];
        put_u64(&mut out, value);
        assert_eq!(out, bytes);
        assert_eq!(take_u64(&out).map(|(v, rest)| (v, rest.len())).ok(), Some((value, 0)));
        assert!(take_u64(&out[..out.len() - 1]).is_err());
    }
    let mut out = vec![7];
    put_u32(&mut out, 300);
    put_u128(&mut out, 1 << 64);
    assert_eq!(&out[..5], &[7, 251, 44, 1, 254]);
    let (small, rest) = take_u32(&out[1..]).ok().unwrap();
    assert_eq!(small, 300);
    assert_eq!(take_u128(rest).map(|(v, _)| v).ok(), Some(1 << 64));
    // A form that is too wide for the number asked for is refused.
    assert!(take_u32(&[253, 0, 0, 0, 0, 0, 0, 0, 0]).is_err());
    assert!(take_u64(&[254]).is_err());
    assert!(take_u64(&[255]).is_err());
}

#[test]
fn signed_numbers_alternate() {
    for (value, byte) in [(0i64, 0u8), (-1, 1), (1, 2), (-2, 3), (2, 4)] {
        let mut out = vec![];
        put_i64(&mut out, value);
        assert_eq!(out, vec![byte]);
    }
    for value in [i64::MIN, i64::MAX, -126, 125, 1_700_000_000_000_000] {
        let mut out = vec![];
        put_i64(&mut out, value);
        assert_eq!(take_i64(&out).map(|(v, _)| v).ok(), Some(value));
    }
}

#[test]
fn texts_and_options_read_back() {
    let mut out = vec![];
    put_str(&mut out, "h\u{e9}");
    assert_eq!(out, vec![3, b'h', 0xc3, 0xa9]);
    assert_eq!(take_string(&out).map(|(s, _)| s).ok(), Some("h\u{e9}".to_string()));
    assert!(take_string(&[2, b'a']).is_err(), "cut short");
    assert!(take_string(&[1, 0xff]).is_err(), "not text");
    assert!(take_string(&[253, 255, 255, 255, 255, 255, 255, 255, 255]).is_err(), "far too long");

    let mut out = vec![];
    put_option(&mut out, None);
    put_option(&mut out, Some(251));
    assert_eq!(out, vec![0, 1, 251, 251, 0]);
    let (none, rest) = take_option(&out).ok().unwrap();
    assert_eq!(none, None);
    assert_eq!(take_option(rest).map(|(v, _)| v).ok(), Some(Some(251)));
    assert!(take_option(&[2]).is_err());
}

#[test]
fn identifiers_are_read_in_every_customary_form() {
    let mut queue = QueueState::new();
    let id = 0x0123_4567_89ab_cdef_0123_4567_89ab_cdef;
    queue.apply(&Record::Leased { job_id: 1, delivery_id: id, visible_at: 1 });
    let good = [
        "01234567-89ab-cdef-0123-456789abcdef",
        "01234567-89AB-CDEF-0123-456789ABCDEF",
        "0123456789abcdef0123456789abcdef",
        "{01234567-89ab-cdef-0123-456789abcdef}",
        "urn:uuid:01234567-89ab-cdef-0123-456789abcdef",
    ];
    for text in good {
        assert!(ack(&queue, text).is_ok(), "{text}");
    }
    let bad = [
        "",
        "0123456789abcdef0123456789abcde",
        "0123456789abcdef0123456789abcdefa",
        "01234567-89ab-cdef-0123-456789abcdeg",
        "01234567_89ab-cdef-0123-456789abcdef",
        "0123456-789ab-cdef-0123-456789abcdef",
        "{01234567-89ab-cdef-0123-456789abcdef",
        "{0123456789abcdef0123456789abcdef}",
        "urn:uuid:0123456789abcdef0123456789abcdef",
        "urn:uuie:01234567-89ab-cdef-0123-456789abcdef",
        " 01234567-89ab-cdef-0123-456789abcdef",
        "h\u{e9}234567-89ab-cdef-0123-456789abcde",
    ];
    for text in bad {
        let read = text.parse::<uuid::Uuid>().is_ok();
        let rejection = ack(&queue, text);
        assert_eq!(rejection.is_ok(), read, "{text}");
        if !read {
            assert_eq!(rejection.unwrap_err().code, Code::InvalidArgument);
        }
    }
}

#[test]
fn derived_identifiers_carry_their_version() {
    let id = uuid::Uuid::from_u128(derive_id("10.0.0.1:6000"));
    assert_eq!(id.get_version_num(), 5);
    assert_eq!(id.get_variant(), uuid::Variant::RFC4122);
    assert_eq!(derive_id("10.0.0.1:6000"), derive_id("10.0.0.1:6000"));
}

#[test]
fn texts_are_put_together() {
    for n in [0, 7, 9, 10, 42, 100, 10_000, 1_234_567_890, u64::MAX] {
        assert_eq!(decimal_text(n), n.to_string());
    }
    assert_eq!(prefixed("a", "b"), "ab");
    assert_eq!(join(&vec![], ","), "");
    assert_eq!(join(&vec!["a".to_string()], ","), "a");
    assert_eq!(join(&vec!["a".to_string(), "".to_string(), "b".to_string()], ", "), "a, , b");
}

#[test]
fn isolation_cuts_both_ways_until_healed() {
    let mut cluster = MemoryCluster::new();
    assert_eq!(cluster.route(1, 2), None, "nobody is there");
    cluster.register(1);
    cluster.register(2);
    cluster.register(3);
    assert_eq!(cluster.route(1, 2), Some(2));
    assert_eq!(cluster.route(9, 2), Some(2), "whoever sends need not be there");
    cluster.isolate(1);
    assert_eq!(cluster.route(1, 2), None);
    assert_eq!(cluster.route(2, 1), None);
    assert_eq!(cluster.route(2, 3), Some(3));
    cluster.heal(1);
    assert_eq!(cluster.route(1, 2), Some(2));
    assert_eq!(cluster.route(2, 1), Some(1));
    assert_eq!(MemoryCluster::default().route(1, 1), None);
}
