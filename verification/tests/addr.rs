use round_robin::addr::{normalize_ip, parse_ip, parse_ipv4, parse_ipv6, IpAddress};

fn v4(s: &str) -> Option<Vec<u8>> {
    parse_ipv4(&s.chars().collect())
}

fn v6(s: &str) -> Option<Vec<u8>> {
    parse_ipv6(&s.chars().collect())
}

#[test]
fn dotted_texts() {
    assert_eq!(v4("1.2.3.4"), Some(vec![1, 2, 3, 4]));
    assert_eq!(v4("0.0.0.0"), Some(vec![0; 4]));
    assert_eq!(v4("255.255.255.255"), Some(vec![255; 4]));
    for bad in [
        "", "1", "1.2.3", "1.2.3.4.5", "1.2.3.256", "01.2.3.4", "1.2.3.", ".1.2.3", "1..2.3",
        "1.2.3.4 ", "+1.2.3.4", "1.2.3.0x4", "1.2.3.1000", "dns.google", "1.2.3.四",
    ] {
        assert_eq!(v4(bad), None, "{bad}");
    }
}

#[test]
fn ipv6_texts() {
    let mut one = vec![0u8; 16];
    assert_eq!(v6("::"), Some(one.clone()));
    one[15] = 1;
    assert_eq!(v6("::1"), Some(one.clone()));
    assert_eq!(v6("0:0:0:0:0:0:0:1"), Some(one.clone()));
    assert_eq!(v6("0000:0000::0001"), Some(one));
    let doc: Vec<u8> = vec![0x20, 1, 0xd, 0xb8, 0, 0, 0, 0, 0, 0, 0, 0, 0xab, 0xcd, 0, 7];
    assert_eq!(v6("2001:db8::abcd:7"), Some(doc.clone()));
    assert_eq!(v6("2001:DB8::ABCD:0007"), Some(doc));
    let mapped: Vec<u8> = vec![0, 0, 0, 0, 0, 0, 0, 0, 0, 0, 255, 255, 1, 2, 3, 4];
    assert_eq!(v6("::ffff:1.2.3.4"), Some(mapped.clone()));
    assert_eq!(v6("0:0:0:0:0:ffff:1.2.3.4"), Some(mapped));
    let mut seven = vec![0u8, 1, 0, 2, 0, 3, 0, 4, 0, 5, 0, 6, 0, 7];
    seven.extend([0, 0]);
    assert_eq!(v6("1:2:3:4:5:6:7::"), Some(seven));
    for bad in [
        "", ":", ":::", "1", "1:2:3:4:5:6:7", "1:2:3:4:5:6:7:8:9", "1:2:3:4:5:6:7:", ":1::",
        "1::2::3", "1:::2", "12345::", "g::", "1:2:3:4:5:6:7::8", "1.2.3.4", "1.2.3.4::",
        "::1.2.3.4:5", "1:2:3:4:5:6:7:1.2.3.4", "::1%eth0", " ::1", "::1.2.3.04",
    ] {
        assert_eq!(v6(bad), None, "{bad}");
    }
}

#[test]
fn normal_texts() {
    assert_eq!(normalize_ip(IpAddress::V4(0x0102_03ff)), "1.2.3.255");
    let of = |n: u128| normalize_ip(IpAddress::V6(n));
    assert_eq!(of(0), "::");
    assert_eq!(of(1), "::1");
    assert_eq!(of(0xffff_0102_0304), "1.2.3.4");
    assert_eq!(of(0x1_0000_0102_0304), "::1:0:102:304");
    assert_eq!(of(0x2001_0db8_0000_0000_0001_0000_0000_0001), "2001:db8::1:0:0:1");
    assert_eq!(of(0x0001_0000_0000_0002_0000_0000_0000_0003), "1:0:0:2::3");
    assert_eq!(of(0x0001_0002_0003_0004_0005_0006_0007_0000), "1:2:3:4:5:6:7:0");
    assert_eq!(of(0xabcd_0000_0000_0000_0000_0000_0000_0000), "abcd::");
    assert_eq!(of(u128::MAX), "ffff:ffff:ffff:ffff:ffff:ffff:ffff:ffff");
    for n in [0u128, 1, 0x2001_0db8_0000_0000_0001_0000_0000_0001, u128::MAX, 1 << 127] {
        assert_eq!(v6(&of(n)), Some(n.to_be_bytes().to_vec()));
    }
}

#[test]
fn texts_of_either_family() {
    assert_eq!(parse_ip("255.0.0.1"), Some(IpAddress::V4(0xff00_0001)));
    assert_eq!(parse_ip("ff00::1"), Some(IpAddress::V6((0xff00 << 112) + 1)));
    assert_eq!(parse_ip("::ffff:1.2.3.4"), Some(IpAddress::V6(0xffff_0102_0304)));
    assert_eq!(parse_ip("dns.google"), None);
    assert_eq!(parse_ip("[::1]"), None);
    assert_eq!(parse_ip(""), None);
}
