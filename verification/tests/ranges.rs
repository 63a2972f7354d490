use soma::host::IpAddress;
use soma::range::{AddressFamily, AddressRange, Segment};

#[test]
fn single_address_range() {
    let range = AddressRange::parse("192.168.1.10").unwrap();
    assert_eq!(range.family(), AddressFamily::V4);
    assert_eq!(range.first(), IpAddress::V4(0xc0a8_010a));
    assert_eq!(range.last(), IpAddress::V4(0xc0a8_010a));
    assert_eq!(range.last_unit(16), Some(0));
    assert_eq!(range, AddressRange::single(IpAddress::V4(0xc0a8_010a)));
}

#[test]
fn prefix_range_is_masked() {
    let range = AddressRange::parse("192.168.1.77/24").unwrap();
    assert_eq!(range.first(), IpAddress::V4(0xc0a8_0100));
    assert_eq!(range.last(), IpAddress::V4(0xc0a8_01ff));
    let whole = AddressRange::parse("10.1.2.3/0").unwrap();
    assert_eq!(whole.first(), IpAddress::V4(0));
    assert_eq!(whole.last(), IpAddress::V4(0xffff_ffff));
    let one = AddressRange::parse("10.1.2.3/32").unwrap();
    assert_eq!(one.first(), IpAddress::V4(0x0a01_0203));
    assert_eq!(one.last(), IpAddress::V4(0x0a01_0203));
    let odd = AddressRange::parse("10.1.2.3/31").unwrap();
    assert_eq!(odd.first(), IpAddress::V4(0x0a01_0202));
    assert_eq!(odd.last(), IpAddress::V4(0x0a01_0203));
}

#[test]
fn ipv6_prefix_range() {
    let range = AddressRange::parse("2001:db8::1234/120").unwrap();
    assert_eq!(range.family(), AddressFamily::V6);
    assert_eq!(range.first(), IpAddress::V6(0x2001_0db8_0000_0000_0000_0000_0000_1200));
    assert_eq!(range.last(), IpAddress::V6(0x2001_0db8_0000_0000_0000_0000_0000_12ff));
    let whole = AddressRange::parse("::/0").unwrap();
    assert_eq!(whole.first(), IpAddress::V6(0));
    assert_eq!(whole.last(), IpAddress::V6(u128::MAX));
    assert_eq!(whole.last_unit(1), Some(u128::MAX));
    let one = AddressRange::parse("::1/128").unwrap();
    assert_eq!(one.first(), IpAddress::V6(1));
    assert_eq!(one.last(), IpAddress::V6(1));
}

#[test]
fn malformed_ranges() {
    for text in [
        "", "/", "/24", "192.168.1.0/", "192.168.1.0/33", "192.168.1.0/-1", "192.168.1.0/+8",
        "192.168.1.0/2 4", "192.168.1/24", "::/129", "::1/1000", "10.0.0.0/8/8", "host/24",
        "10.0.0.0-10.0.0.9",
    ] {
        assert_eq!(AddressRange::parse(text), None, "{:?}", text);
    }
}

#[test]
fn prefix_beyond_the_family() {
    assert_eq!(AddressRange::from_prefix(IpAddress::V4(1), 33), None);
    assert!(AddressRange::from_prefix(IpAddress::V4(1), 32).is_some());
    assert_eq!(AddressRange::from_prefix(IpAddress::V6(1), 129), None);
    assert!(AddressRange::from_prefix(IpAddress::V6(1), 128).is_some());
}

#[test]
fn units_cover_the_range_in_order() {
    let range = AddressRange::parse("10.0.0.0/24").unwrap();
    assert_eq!(range.last_unit(0), None);
    assert_eq!(range.segment(0, 0), None);
    assert_eq!(range.last_unit(100), Some(2));
    assert_eq!(
        range.segment(100, 0),
        Some(Segment { index: 0, first: IpAddress::V4(0x0a00_0000), last: IpAddress::V4(0x0a00_0063) })
    );
    assert_eq!(
        range.segment(100, 1),
        Some(Segment { index: 1, first: IpAddress::V4(0x0a00_0064), last: IpAddress::V4(0x0a00_00c7) })
    );
    assert_eq!(
        range.segment(100, 2),
        Some(Segment { index: 2, first: IpAddress::V4(0x0a00_00c8), last: IpAddress::V4(0x0a00_00ff) })
    );
    assert_eq!(range.segment(100, 3), None);
    assert_eq!(range.last_unit(256), Some(0));
    assert_eq!(range.last_unit(1), Some(255));
    assert_eq!(
        range.segment(1, 255),
        Some(Segment { index: 255, first: IpAddress::V4(0x0a00_00ff), last: IpAddress::V4(0x0a00_00ff) })
    );
    assert_eq!(range.last_unit(u128::MAX), Some(0));
    assert_eq!(
        range.segment(u128::MAX, 0),
        Some(Segment { index: 0, first: IpAddress::V4(0x0a00_0000), last: IpAddress::V4(0x0a00_00ff) })
    );
    assert_eq!(range.segment(u128::MAX, u128::MAX), None);
}

#[test]
fn every_address_lies_in_one_unit() {
    let range = AddressRange::parse("10.0.0.0/26").unwrap();
    let unit = 7u128;
    let last_unit = range.last_unit(unit).unwrap();
    let mut expected = 0x0a00_0000u32;
    for index in 0..=last_unit {
        let segment = range.segment(unit, index).unwrap();
        assert_eq!(segment.first, IpAddress::V4(expected));
        let last = match segment.last {
            IpAddress::V4(v) => v,
            IpAddress::V6(_) => panic!("wrong family"),
        };
        assert!(last >= expected);
        assert!((last - expected) as u128 + 1 <= unit);
        expected = last + 1;
    }
    assert_eq!(expected, 0x0a00_0040);
}
