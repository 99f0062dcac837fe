use std::io::Write;

use flate2::write::GzEncoder;
use flate2::Compression;
use netflow::addr::IpAddr;
use netflow::asn::{AsnDb, AsnInfo, LoadError, Network, OverrideEntry};

const TABLE: &str = "1.0.0.0\t1.0.0.255\t13335\tUS\tCLOUDFLARENET\n\
    1.0.1.0\t1.0.3.255\t0\tNone\tNot routed\n\
    9.0.0.0\t9.255.255.255\t9999\tZZ\tNINE\textra\n\
    1.0.4.0\t1.0.7.255\t38803\tAU\tWPL-AS-AP\r\n\
    broken line\n\
    1.0.8.0\t1.0.15.255\tmany\tCN\tCHINANET\n\
    1.0.16.0\t2001::\t2519\tJP\tMIXED\n\
    nowhere\t1.0.16.255\t2519\tJP\tVECTANT\n\
    2001:200::\t2001:200:ffff:ffff:ffff:ffff:ffff:ffff\t2500\tJP\tWIDE-BB\n\
    1.1.1.0\t1.1.1.255\t13335\tAU";

fn v4(a: u8, b: u8, c: u8, d: u8) -> IpAddr {
    IpAddr::V4(u32::from_be_bytes([a, b, c, d]))
}

fn v6(hi: u128, lo: u128) -> IpAddr {
    IpAddr::V6(hi << 64 | lo)
}

fn entry(addr: IpAddr, prefix_len: u8, asn: u32, organization: &str) -> OverrideEntry {
    OverrideEntry {
        network: Network::new(addr, prefix_len).unwrap(),
        asn,
        organization: organization.to_string(),
        country_code: "XX".to_string(),
    }
}

fn asn(info: Option<AsnInfo>) -> Option<u32> {
    info.map(|i| i.asn)
}

fn gzip(text: &[u8]) -> Vec<u8> {
    let mut encoder = GzEncoder::new(Vec::new(), Compression::default());
    encoder.write_all(text).unwrap();
    encoder.finish().unwrap()
}

#[test]
fn ranges_found() {
    let db = AsnDb::from_text(TABLE, &vec![]);
    let info = db.lookup(v4(1, 0, 0, 77)).unwrap();
    assert_eq!(info.asn, 13335);
    assert_eq!(info.country, "US");
    assert_eq!(info.org, "CLOUDFLARENET");
    assert_eq!(asn(db.lookup(v4(1, 0, 0, 0))), Some(13335));
    assert_eq!(asn(db.lookup(v4(1, 0, 0, 255))), Some(13335));
    // The table need not be sorted, and lines may end in two characters.
    assert_eq!(db.lookup(v4(1, 0, 4, 0)).unwrap().org, "WPL-AS-AP");
    // Further columns do not matter.
    assert_eq!(db.lookup(v4(9, 9, 9, 9)).unwrap().org, "NINE");
    assert_eq!(asn(db.lookup(v6(0x2001_0200_0000_0001, 5))), Some(2500));
}

#[test]
fn ranges_not_found() {
    let db = AsnDb::from_text(TABLE, &vec![]);
    // Before the first, between two, not routed, and lines that cannot be read.
    assert_eq!(asn(db.lookup(v4(0, 255, 255, 255))), None);
    assert_eq!(asn(db.lookup(v4(2, 0, 0, 0))), None);
    assert_eq!(asn(db.lookup(v4(1, 0, 1, 1))), None);
    assert_eq!(asn(db.lookup(v4(1, 0, 9, 1))), None);
    assert_eq!(asn(db.lookup(v4(1, 0, 16, 1))), None);
    assert_eq!(asn(db.lookup(v4(1, 1, 1, 1))), None);
    assert_eq!(asn(db.lookup(v4(255, 255, 255, 255))), None);
    assert_eq!(asn(db.lookup(v6(0x2001_0201_0000_0000, 0))), None);
    assert_eq!(asn(db.lookup(v6(0, 0x0100_0001))), None);
    let empty = AsnDb::from_text("", &vec![]);
    assert_eq!(asn(empty.lookup(v4(1, 0, 0, 1))), None);
    assert_eq!(asn(empty.lookup(v6(0, 0))), None);
}

#[test]
fn ranges_that_overlap() {
    // The last that starts at the address or before it decides.
    let table = "1.0.0.0\t1.255.255.255\t1\tA\ta\n1.2.0.0\t1.2.0.255\t2\tB\tb\n1.2.0.0\t1.2.0.9\t3\tC\tc\n";
    let db = AsnDb::from_text(table, &vec![]);
    assert_eq!(asn(db.lookup(v4(1, 1, 0, 0))), Some(1));
    assert_eq!(asn(db.lookup(v4(1, 2, 0, 9))), Some(3));
    assert_eq!(asn(db.lookup(v4(1, 2, 0, 10))), None);
    assert_eq!(asn(db.lookup(v4(1, 3, 0, 0))), None);
}

#[test]
fn overrides_come_first() {
    let overrides = vec![
        entry(v4(1, 0, 0, 0), 8, 64512, "broad"),
        entry(v4(1, 0, 0, 99), 24, 64513, "narrow"),
        entry(v4(1, 0, 0, 0), 24, 64514, "narrow too"),
        entry(v6(0x2001_0000_0000_0000, 0), 16, 64515, "six"),
        entry(v4(77, 1, 2, 3), 32, 64516, "one"),
    ];
    let db = AsnDb::from_text(TABLE, &overrides);
    // The longest prefix wins, and the first of two.
    let info = db.lookup(v4(1, 0, 0, 5)).unwrap();
    assert_eq!((info.asn, info.org.as_str(), info.country.as_str()), (64513, "narrow", "XX"));
    assert_eq!(asn(db.lookup(v4(1, 0, 4, 0))), Some(64512));
    assert_eq!(asn(db.lookup(v4(1, 255, 255, 255))), Some(64512));
    assert_eq!(asn(db.lookup(v4(77, 1, 2, 3))), Some(64516));
    assert_eq!(asn(db.lookup(v4(77, 1, 2, 4))), None);
    assert_eq!(asn(db.lookup(v6(0x2001_0200_0000_0000, 0))), Some(64515));
    // Elsewhere the table.
    assert_eq!(asn(db.lookup(v4(9, 0, 0, 0))), Some(9999));
}

#[test]
fn overrides_without_prefix_take_a_whole_family() {
    let overrides = vec![entry(v4(8, 8, 8, 8), 0, 1, "all")];
    let db = AsnDb::from_text(TABLE, &overrides);
    assert_eq!(asn(db.lookup(v4(255, 255, 255, 255))), Some(1));
    assert_eq!(asn(db.lookup(v6(0x2001_0200_0000_0000, 0))), Some(2500));
    let six = vec![entry(v6(5, 5), 0, 6, "all"), entry(v6(1, 1), 128, 7, "one")];
    let db = AsnDb::from_text(TABLE, &six);
    assert_eq!(asn(db.lookup(v6(0, 0))), Some(6));
    assert_eq!(asn(db.lookup(v6(1, 1))), Some(7));
    assert_eq!(asn(db.lookup(v4(2, 2, 2, 2))), None);
}

#[test]
fn prefixes() {
    assert!(Network::new(v4(0, 0, 0, 0), 32).is_some());
    assert!(Network::new(v4(0, 0, 0, 0), 33).is_none());
    assert!(Network::new(v6(0, 0), 128).is_some());
    assert!(Network::new(v6(0, 0), 129).is_none());
}

#[test]
fn table_unpacked() {
    let overrides = vec![entry(v4(10, 0, 0, 0), 8, 64512, "inside")];
    let db = AsnDb::load(&gzip(TABLE.as_bytes()), &overrides).ok().unwrap();
    assert_eq!(asn(db.lookup(v4(1, 0, 0, 1))), Some(13335));
    assert_eq!(asn(db.lookup(v4(10, 1, 1, 1))), Some(64512));
    assert_eq!(db.sizes(), (3, 1, 1));
}

#[test]
fn table_refused() {
    assert!(matches!(AsnDb::load(TABLE.as_bytes(), &vec![]), Err(LoadError::Gzip(_))));
    assert!(matches!(AsnDb::load(&[], &vec![]), Err(LoadError::Gzip(_))));
    let packed = gzip(TABLE.as_bytes());
    assert!(AsnDb::load(&packed[..packed.len() - 5], &vec![]).is_err());
    // What is inside has to be UTF-8.
    assert!(AsnDb::load(&gzip(&[0x31, 0xff, 0xfe]), &vec![]).is_err());
}
