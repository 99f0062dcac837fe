use netflow::addr::{fmt_ip, ip_to_hex_literal, parse_ip, IpAddr};
use netflow::order::stable_order;
use netflow::text::{
    chars_of, encode, push_decimal, push_hex, push_signed_decimal, push_zero_padded, read_number,
    read_u32, split_at, split_lines, string_of,
};

fn parse(text: &str) -> Option<IpAddr> {
    parse_ip(&chars_of(text))
}

fn written(n: u64) -> String {
    let mut s = String::new();
    push_decimal(&mut s, n);
    s
}

#[test]
fn numbers_written() {
    for n in [0u64, 9, 10, 99, 100, 65535, u64::MAX] {
        assert_eq!(written(n), n.to_string());
    }
    for n in [i64::MIN, -10, -1, 0, 7, i64::MAX] {
        let mut s = String::new();
        push_signed_decimal(&mut s, n);
        assert_eq!(s, n.to_string());
    }
    for n in [0u16, 9, 10, 15, 16, 255, 256, 0xabcd, 0xffff] {
        let mut s = String::new();
        push_hex(&mut s, n);
        assert_eq!(s, format!("{:x}", n));
    }
    for (n, width) in [(0u64, 2usize), (7, 2), (12, 2), (123, 2), (5, 0), (42, 4), (12345, 4)] {
        let mut s = String::new();
        push_zero_padded(&mut s, n, width);
        assert_eq!(s, format!("{:0width$}", n, width = width));
    }
}

#[test]
fn bytes_in_hexadecimal() {
    assert_eq!(encode(&[]), "");
    assert_eq!(encode(&[0x00, 0x0f, 0xa0, 0xff]), "000fa0ff");
}

#[test]
fn numbers_read() {
    for text in ["0", "7", "007", "+7", "4294967295", "0000000000000000000001"] {
        assert_eq!(read_u32(&chars_of(text)), text.parse::<u32>().ok());
        assert!(read_u32(&chars_of(text)).is_some());
    }
    for text in ["", "+", "-1", "++1", " 1", "1 ", "4294967296", "99999999999999999999", "1a"] {
        assert_eq!(read_u32(&chars_of(text)), None);
        assert!(text.parse::<u32>().is_err());
    }
    assert_eq!(read_number(&chars_of("fFfF"), 16), Some(0xffff));
    assert_eq!(read_number(&chars_of(""), 16), Some(0));
    assert_eq!(read_number(&chars_of("8"), 8), None);
}

#[test]
fn texts_cut() {
    let cut = |text: &str| -> Vec<String> {
        let chars = chars_of(text);
        split_at(&chars, '\t').into_iter().map(string_of).collect()
    };
    for text in ["", "\t", "a", "a\tb", "\ta\t", "a\t\tb", "ä\tö"] {
        let want: Vec<String> = text.split('\t').map(|s| s.to_string()).collect();
        assert_eq!(cut(text), want);
    }
}

#[test]
fn lines_cut() {
    let cut = |text: &str| -> Vec<String> {
        let chars = chars_of(text);
        split_lines(&chars).into_iter().map(string_of).collect()
    };
    for text in ["", "\n", "a", "a\n", "a\nb", "a\r\nb\r\n", "a\r", "a\r\r\nb", "\n\n", "\r\n", "a\rb\n"] {
        let want: Vec<String> = text.lines().map(|s| s.to_string()).collect();
        assert_eq!(cut(text), want);
    }
}

#[test]
fn addresses_read() {
    assert_eq!(parse("0.0.0.0"), Some(IpAddr::V4(0)));
    assert_eq!(parse("10.2.19.230"), Some(IpAddr::V4(0x0a02_13e6)));
    assert_eq!(parse("255.255.255.255"), Some(IpAddr::V4(u32::MAX)));
    assert_eq!(parse("::"), Some(IpAddr::V6(0)));
    assert_eq!(parse("::1"), Some(IpAddr::V6(1)));
    assert_eq!(parse("1::"), Some(IpAddr::V6(1 << 112)));
    assert_eq!(
        parse("2001:db8:0:1:2:3:4:5"),
        Some(IpAddr::V6(0x2001_0db8_0000_0001_0002_0003_0004_0005))
    );
    assert_eq!(
        parse("2001:DB8::Ff"),
        Some(IpAddr::V6(0x2001_0db8_0000_0000_0000_0000_0000_00ff))
    );
    assert_eq!(parse("::ffff:1.2.3.4"), Some(IpAddr::V6(0xffff_0102_0304)));
    assert_eq!(parse("::1.2.3.4"), Some(IpAddr::V6(0x0102_0304)));
    assert_eq!(
        parse("1:2:3:4:5:6:7.8.9.10"),
        Some(IpAddr::V6(0x0001_0002_0003_0004_0005_0006_0708_090a))
    );
    assert_eq!(
        parse("1:2:3:4:5:6:7::"),
        Some(IpAddr::V6(0x0001_0002_0003_0004_0005_0006_0007_0000))
    );
    assert_eq!(
        parse("::2:3:4:5:6:7:8"),
        Some(IpAddr::V6(0x0000_0002_0003_0004_0005_0006_0007_0008))
    );
    assert_eq!(parse("0000:0::0001"), Some(IpAddr::V6(1)));
}

#[test]
fn addresses_refused() {
    let bad = [
        "", " ", "1", "1.2.3", "1.2.3.4.5", "1.2.3.256", "01.2.3.4", "1.2.3.00", "1.2.3.", ".1.2.3",
        "1..2.3", "1.2.3.4 ", "+1.2.3.4", "0x1.2.3.4", "1.2.3.a", "1.2.3.1000", ":", ":::", "1:::2",
        "1::2::3", "1:2:3:4:5:6:7", "1:2:3:4:5:6:7:8:9", "1:2:3:4:5:6:7::8", "1:2:3:4:5:6:7:8::",
        "::1:2:3:4:5:6:7:8", ":1::2", "1::2:", "12345::", "g::", "::1.2.3", "1.2.3.4::",
        "::1.2.3.4:5", "1:2:3:4:5:6:7:1.2.3.4", "::ffff:1.2.3.04", "::%1", "[::1]", "::1/64",
    ];
    for text in bad {
        assert_eq!(parse(text), None);
    }
}

#[test]
fn addresses_written() {
    let shown = |groups: [u16; 8]| -> String {
        let mut n: u128 = 0;
        for g in groups {
            n = n << 16 | g as u128;
        }
        IpAddr::V6(n).to_text()
    };
    assert_eq!(IpAddr::V4(0x0a02_13e6).to_text(), "10.2.19.230");
    assert_eq!(IpAddr::V4(0).to_text(), "0.0.0.0");
    assert_eq!(shown([0; 8]), "::");
    assert_eq!(shown([0, 0, 0, 0, 0, 0, 0, 1]), "::1");
    assert_eq!(shown([1, 0, 0, 0, 0, 0, 0, 0]), "1::");
    assert_eq!(shown([0x2001, 0xdb8, 0, 0, 0, 0, 0, 0xff]), "2001:db8::ff");
    // One zero alone stays; of two runs the longer goes, of equal ones the first.
    assert_eq!(shown([1, 2, 3, 0, 5, 6, 7, 8]), "1:2:3:0:5:6:7:8");
    assert_eq!(shown([1, 0, 0, 2, 0, 0, 0, 3]), "1:0:0:2::3");
    assert_eq!(shown([1, 0, 0, 2, 0, 0, 3, 4]), "1::2:0:0:3:4");
    assert_eq!(shown([0, 0, 1, 2, 3, 4, 5, 6]), "::1:2:3:4:5:6");
    assert_eq!(shown([0, 0, 0, 0, 0, 0xffff, 0x0102, 0x0304]), "::ffff:1.2.3.4");
    assert_eq!(shown([0, 0, 0, 0, 0, 0, 0x0102, 0x0304]), "::102:304");
    assert_eq!(shown([0xabcd; 8]), "abcd:abcd:abcd:abcd:abcd:abcd:abcd:abcd");
}

#[test]
fn addresses_read_back() {
    let mut n: u128 = 0x9e37_79b9_7f4a_7c15_f39c_c060_5ced_c834;
    for i in 0..2000u32 {
        n = n.wrapping_mul(0x2360_ed05_1fc6_5da4_4385_df64_9fcc_f645).wrapping_add(1);
        let v4 = IpAddr::V4((n >> 64) as u32);
        assert_eq!(parse(&v4.to_text()), Some(v4));
        // Some groups at zero.
        let mut m: u128 = n;
        for g in 0..8 {
            if (i >> g) & 1 == 1 {
                m &= !(0xffffu128 << (16 * g));
            }
        }
        let v6 = IpAddr::V6(m);
        assert_eq!(parse(&v6.to_text()), Some(v6));
        assert_eq!(fmt_ip(&v6.to_octets()), v6.to_text());
    }
}

#[test]
fn raw_addresses_shown() {
    assert_eq!(fmt_ip(&[157, 240, 14, 53]), "157.240.14.53");
    let mut six = [0u8; 16];
    six[0] = 0x20;
    six[1] = 0x01;
    six[15] = 7;
    assert_eq!(fmt_ip(&six), "2001::7");
    assert_eq!(fmt_ip(&[]), "");
    assert_eq!(fmt_ip(&[0xde, 0xad, 0xbe]), "deadbe");
    assert_eq!(fmt_ip(&[1; 17]), "01".repeat(17));
}

#[test]
fn literals() {
    assert_eq!(ip_to_hex_literal(IpAddr::V4(0xaaf6_a0c3)), "aaf6a0c3");
    assert_eq!(ip_to_hex_literal(IpAddr::V4(1)), "00000001");
    assert_eq!(ip_to_hex_literal(IpAddr::V6(1)), "00000000000000000000000000000001");
    assert_eq!(IpAddr::V4(0x0102_0304).to_octets(), vec![1, 2, 3, 4]);
}

#[test]
fn order_keeps_equals() {
    assert_eq!(stable_order(&vec![]), Vec::<usize>::new());
    assert_eq!(stable_order(&vec![3, 1, 2]), vec![1, 2, 0]);
    assert_eq!(stable_order(&vec![5, 1, 5, 1, 5, 0]), vec![5, 1, 3, 0, 2, 4]);
    let keys: Vec<u128> = (0..500).map(|i| (i * 7919 % 13) as u128).collect();
    let mut want: Vec<usize> = (0..500).collect();
    want.sort_by_key(|i| keys[*i]);
    assert_eq!(stable_order(&keys), want);
}
