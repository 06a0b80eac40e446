use iptoasn::index::{ASNs, LoadError};
use iptoasn::ip::{parse_ip, parse_ipv4, parse_ipv6, IpAddress};
use iptoasn::record::ASN;
use iptoasn::snapshot::SnapshotHolder;
use std::io::Write;

fn v4(s: &str) -> IpAddress {
    parse_ip(s.as_bytes()).unwrap()
}

fn gz(text: &str) -> Vec<u8> {
    let mut e = flate2::write::GzEncoder::new(Vec::new(), flate2::Compression::default());
    e.write_all(text.as_bytes()).unwrap();
    e.finish().unwrap()
}

const SCENARIO: &str =
    "1.0.0.0\t1.0.0.255\t13335\tUS\tCLOUDFLARENET\n1.0.1.0\t1.0.1.255\t0\tNone\tNone\n";

#[test]
fn concrete_scenario() {
    let idx = ASNs::from_feed(SCENARIO.as_bytes()).unwrap();
    let found = idx.lookup_by_ip(v4("1.0.0.1")).unwrap();
    assert_eq!(found.number, 13335);
    assert_eq!(found.country, "US");
    assert_eq!(found.description, "CLOUDFLARENET");
    assert!(idx.lookup_by_ip(v4("1.0.1.1")).is_none());
    assert!(idx.lookup_by_ip(v4("1.0.2.1")).is_none());
    assert!(idx.lookup_by_ip(v4("0.255.255.255")).is_none());
}

#[test]
fn compressed_feed_is_inflated() {
    let idx = ASNs::new(&gz(SCENARIO)).unwrap();
    assert_eq!(idx.len(), 2);
    assert_eq!(idx.lookup_by_ip(v4("1.0.0.255")).unwrap().number, 13335);
}

#[test]
fn invalid_gzip_is_a_decode_error() {
    assert!(matches!(ASNs::new(SCENARIO.as_bytes()), Err(LoadError::DecodeError)));
    let mut bytes = gz(SCENARIO);
    bytes.truncate(bytes.len() / 2);
    assert!(matches!(ASNs::new(&bytes), Err(LoadError::DecodeError)));
}

#[test]
fn failed_fetch_is_a_fetch_error() {
    let r = ASNs::load(Err("unreachable".to_string()));
    assert_eq!(r.err(), Some(LoadError::FetchError("unreachable".to_string())));
    let ok = ASNs::load(Ok(gz(SCENARIO))).unwrap();
    assert_eq!(ok.len(), 2);
}

#[test]
fn containment_at_bounds_and_inside() {
    let idx = ASNs::from_feed(SCENARIO.as_bytes()).unwrap();
    for ip in ["1.0.0.0", "1.0.0.128", "1.0.0.255"] {
        let r = idx.lookup_by_ip(v4(ip)).unwrap();
        assert_eq!(r.first_ip, v4("1.0.0.0"));
        assert_eq!(r.last_ip, v4("1.0.0.255"));
    }
}

#[test]
fn adjacent_boundary_is_exact() {
    let feed = "10.0.0.0\t10.0.0.9\t1\tAA\tfirst\n10.0.0.10\t10.0.0.20\t2\tBB\tsecond\n";
    let idx = ASNs::from_feed(feed.as_bytes()).unwrap();
    assert_eq!(idx.lookup_by_ip(v4("10.0.0.9")).unwrap().number, 1);
    assert_eq!(idx.lookup_by_ip(v4("10.0.0.10")).unwrap().number, 2);
    assert!(idx.lookup_by_ip(v4("10.0.0.21")).is_none());
}

#[test]
fn gap_and_unallocated_are_not_found() {
    let feed = "10.0.0.0\t10.0.0.9\t1\tAA\tfirst\n10.0.0.20\t10.0.0.29\t0\tNone\tNone\n10.0.0.40\t10.0.0.49\t3\tCC\tthird\n";
    let idx = ASNs::from_feed(feed.as_bytes()).unwrap();
    assert!(idx.lookup_by_ip(v4("10.0.0.15")).is_none());
    assert!(idx.lookup_by_ip(v4("10.0.0.25")).is_none());
    assert!(idx.lookup_by_ip(v4("10.0.0.35")).is_none());
    assert_eq!(idx.lookup_by_ip(v4("10.0.0.45")).unwrap().number, 3);
}

#[test]
fn unsorted_feed_is_ordered_and_duplicates_keep_the_first() {
    let feed = "10.0.0.40\t10.0.0.49\t3\tCC\tthird\n10.0.0.0\t10.0.0.9\t1\tAA\tfirst\n10.0.0.0\t10.0.0.9\t7\tZZ\tlater\n";
    let idx = ASNs::from_feed(feed.as_bytes()).unwrap();
    assert_eq!(idx.len(), 2);
    assert_eq!(idx.lookup_by_ip(v4("10.0.0.5")).unwrap().number, 1);
    assert_eq!(idx.lookup_by_ip(v4("10.0.0.41")).unwrap().number, 3);
}

#[test]
fn empty_lines_and_empty_feed() {
    let idx = ASNs::from_feed(b"\n1.0.0.0\t1.0.0.255\t5\tUS\tX\n\n").unwrap();
    assert_eq!(idx.len(), 1);
    let empty = ASNs::from_feed(b"").unwrap();
    assert_eq!(empty.len(), 0);
    assert!(empty.lookup_by_ip(v4("1.2.3.4")).is_none());
}

#[test]
fn malformed_lines_name_the_first_bad_line() {
    let two_bad = "1.0.0.0\t1.0.0.255\t5\tUS\tX\n1.0.1.0\t1.0.1.255\t5\tUS\n1.0.2.0\tbad\t5\tUS\tX\n";
    assert_eq!(ASNs::from_feed(two_bad.as_bytes()).err(), Some(LoadError::MalformedRecord(2)));
    let bad_ip = "1.0.0.0\t1.0.0.256\t5\tUS\tX\n";
    assert_eq!(ASNs::from_feed(bad_ip.as_bytes()).err(), Some(LoadError::MalformedRecord(1)));
    let bad_number = "1.0.0.0\t1.0.0.255\t-5\tUS\tX\n";
    assert_eq!(ASNs::from_feed(bad_number.as_bytes()).err(), Some(LoadError::MalformedRecord(1)));
    let too_big = "1.0.0.0\t1.0.0.255\t4294967296\tUS\tX\n";
    assert_eq!(ASNs::from_feed(too_big.as_bytes()).err(), Some(LoadError::MalformedRecord(1)));
    let bad_text: &[u8] = b"1.0.0.0\t1.0.0.255\t5\tUS\t\xff\n";
    assert_eq!(ASNs::from_feed(bad_text).err(), Some(LoadError::MalformedRecord(1)));
}

#[test]
fn record_fields_are_read() {
    let r = ASN::parse(b"2001:200::\t2001:200:ffff:ffff:ffff:ffff:ffff:ffff\t+2500\tJP\tWIDE-BLOCK WIDE Project\textra").unwrap();
    assert_eq!(r.first_ip, IpAddress::V6(0x2001_0200_u128 << 96));
    assert_eq!(r.number, 2500);
    assert_eq!(r.country, "JP");
    assert_eq!(r.description, "WIDE-BLOCK WIDE Project");
    assert!(ASN::parse(b"1.0.0.0\t1.0.0.255\t4294967295\tUS\t").is_some());
    assert!(ASN::parse(b"1.0.0.0\t1.0.0.255\t+\tUS\tX").is_none());
}

#[test]
fn ipv4_text() {
    assert_eq!(parse_ipv4(b"1.2.3.4"), Some(0x0102_0304));
    assert_eq!(parse_ipv4(b"255.255.255.255"), Some(u32::MAX));
    assert_eq!(parse_ipv4(b"0.0.0.0"), Some(0));
    assert_eq!(parse_ipv4(b"01.2.3.4"), None);
    assert_eq!(parse_ipv4(b"256.2.3.4"), None);
    assert_eq!(parse_ipv4(b"1.2.3"), None);
    assert_eq!(parse_ipv4(b"1.2.3.4.5"), None);
    assert_eq!(parse_ipv4(b"1..3.4"), None);
    assert_eq!(parse_ipv4(b""), None);
}

#[test]
fn ipv6_text() {
    assert_eq!(parse_ipv6(b"::"), Some(0));
    assert_eq!(parse_ipv6(b"::1"), Some(1));
    assert_eq!(parse_ipv6(b"1::"), Some(1u128 << 112));
    assert_eq!(parse_ipv6(b"1:2:3:4:5:6:7:8"), Some(0x0001_0002_0003_0004_0005_0006_0007_0008));
    assert_eq!(parse_ipv6(b"1:2:3:4:5:6:7::"), Some(0x0001_0002_0003_0004_0005_0006_0007_0000));
    assert_eq!(parse_ipv6(b"FFFF:abcd::0"), Some(0xffff_abcd_u128 << 96));
    assert_eq!(parse_ipv6(b"1::2::3"), None);
    assert_eq!(parse_ipv6(b":::"), None);
    assert_eq!(parse_ipv6(b"1:2:3:4:5:6:7:8:9"), None);
    assert_eq!(parse_ipv6(b"1:2:3:4:5:6:7:8::"), None);
    assert_eq!(parse_ipv6(b"12345::"), None);
    assert_eq!(parse_ipv6(b"1:2:3"), None);
    assert_eq!(parse_ipv6(b"g::"), None);
    assert_eq!(parse_ipv6(b"::ffff:1.2.3.4"), Some(0xffff_0102_0304));
    assert_eq!(parse_ipv6(b"::1.2.3.4"), Some(0x0102_0304));
    assert_eq!(parse_ipv6(b"1:2:3:4:5:6:1.2.3.4"), Some(0x0001_0002_0003_0004_0005_0006_0102_0304));
    assert_eq!(parse_ipv6(b"1.2.3.4::"), None);
    assert_eq!(parse_ipv6(b"1:2:3:4:5:6:7:1.2.3.4"), None);
    assert_eq!(parse_ipv6(b"1:2:3:4:5:6::1.2.3.4"), None);
    assert_eq!(parse_ipv6(b"::1.2.3.4:1"), None);
    assert_eq!(parse_ip(b"::1"), Some(IpAddress::V6(1)));
    assert_eq!(parse_ip(b"not an address"), None);
}

#[test]
fn families_are_ordered_and_do_not_mix() {
    assert!(IpAddress::V4(u32::MAX).le(&IpAddress::V6(0)));
    assert!(!IpAddress::V6(0).le(&IpAddress::V4(0)));
    let feed = "0.0.0.0\t255.255.255.255\t9\tUS\tall of v4\n";
    let idx = ASNs::from_feed(feed.as_bytes()).unwrap();
    assert!(idx.lookup_by_ip(IpAddress::V6(5)).is_none());
    assert_eq!(idx.lookup_by_ip(IpAddress::V4(5)).unwrap().number, 9);
}

#[test]
fn failed_refresh_keeps_the_snapshot() {
    let mut holder = SnapshotHolder::new(ASNs::from_feed(SCENARIO.as_bytes()).unwrap());
    let r = holder.refresh_now(ASNs::new(b"not gzip"));
    assert_eq!(r, Err(LoadError::DecodeError));
    assert_eq!(holder.lookup_by_ip(v4("1.0.0.1")).unwrap().number, 13335);
    let r = holder.refresh_now(ASNs::load(Err("timed out".to_string())));
    assert_eq!(r, Err(LoadError::FetchError("timed out".to_string())));
    assert_eq!(holder.lookup_by_ip(v4("1.0.0.1")).unwrap().number, 13335);
}

#[test]
fn swap_is_whole_and_old_snapshots_stay_valid() {
    let mut holder = SnapshotHolder::new(ASNs::from_feed(SCENARIO.as_bytes()).unwrap());
    let before = holder.snapshot();
    let next = "2.0.0.0\t2.0.0.255\t64500\tDE\tEXAMPLE\n";
    assert_eq!(holder.refresh_now(ASNs::new(&gz(next))), Ok(()));
    assert_eq!(holder.lookup_by_ip(v4("2.0.0.7")).unwrap().number, 64500);
    assert!(holder.lookup_by_ip(v4("1.0.0.1")).is_none());
    assert_eq!(before.lookup_by_ip(v4("1.0.0.1")).unwrap().number, 13335);
    assert!(before.lookup_by_ip(v4("2.0.0.7")).is_none());
    let after = holder.snapshot();
    assert_eq!(after.len(), 1);
    holder.install(ASNs::from_feed(SCENARIO.as_bytes()).unwrap());
    assert_eq!(holder.lookup_by_ip(v4("1.0.0.1")).unwrap().number, 13335);
}
