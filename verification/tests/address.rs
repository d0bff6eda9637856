use tosh::address::{parse_chars, parse_ipv6, Ipv6Address};

fn groups(text: &str) -> Option<[u16; 8]> {
    parse_ipv6(text).map(|address| address.segments)
}

#[test]
fn reads_eight_fields() {
    assert_eq!(
        groups("fd15:4ba5:5a2b:1008:20c:29ff:fe12:3456"),
        Some([0xfd15, 0x4ba5, 0x5a2b, 0x1008, 0x020c, 0x29ff, 0xfe12, 0x3456])
    );
    assert_eq!(groups("1:2:3:4:5:6:7:8"), Some([1, 2, 3, 4, 5, 6, 7, 8]));
    assert_eq!(
        groups("0000:0000:0000:0000:0000:0000:0000:0000"),
        Some([0; 8])
    );
    assert_eq!(
        groups("ffff:FFFF:fFfF:0:00:000:0000:aBcD"),
        Some([0xffff, 0xffff, 0xffff, 0, 0, 0, 0, 0xabcd])
    );
}

#[test]
fn reads_a_gap_of_zeros() {
    assert_eq!(groups("::"), Some([0; 8]));
    assert_eq!(groups("::1"), Some([0, 0, 0, 0, 0, 0, 0, 1]));
    assert_eq!(groups("1::"), Some([1, 0, 0, 0, 0, 0, 0, 0]));
    assert_eq!(groups("fe80::1:2"), Some([0xfe80, 0, 0, 0, 0, 0, 1, 2]));
    assert_eq!(groups("1:2:3::6:7:8"), Some([1, 2, 3, 0, 0, 6, 7, 8]));
    assert_eq!(groups("1:2:3:4:5:6:7::"), Some([1, 2, 3, 4, 5, 6, 7, 0]));
    assert_eq!(groups("::2:3:4:5:6:7:8"), Some([0, 2, 3, 4, 5, 6, 7, 8]));
    assert_eq!(groups("1:2:3:4::6:7:8"), Some([1, 2, 3, 4, 0, 6, 7, 8]));
}

#[test]
fn reads_a_dotted_quad_at_the_end() {
    assert_eq!(groups("1:2:3:4:5:6:1.2.3.4"), Some([1, 2, 3, 4, 5, 6, 0x0102, 0x0304]));
    assert_eq!(
        groups("::ffff:192.168.0.1"),
        Some([0, 0, 0, 0, 0, 0xffff, 0xc0a8, 0x0001])
    );
    assert_eq!(groups("::255.255.255.255"), Some([0, 0, 0, 0, 0, 0, 0xffff, 0xffff]));
    assert_eq!(groups("::0.0.0.0"), Some([0; 8]));
    assert_eq!(groups("1:2:3:4:5::1.2.3.4"), Some([1, 2, 3, 4, 5, 0, 0x0102, 0x0304]));
}

#[test]
fn refuses_a_wrong_number_of_fields() {
    for text in [
        "",
        "1",
        "1:2:3:4:5:6:7",
        "1:2:3:4:5:6:7:8:9",
        "1:2:3:4:5:6:7:8::",
        "::1:2:3:4:5:6:7:8",
        "1:2:3:4::5:6:7:8",
        "1:2:3:4:5:6:7:1.2.3.4",
        "1:2:3:4:5:6::1.2.3.4",
        "1:2:3:4:5:1.2.3.4",
    ] {
        assert_eq!(groups(text), None, "{}", text);
    }
}

#[test]
fn refuses_stray_colons() {
    for text in [":", ":::", "1:::2", "1::2::3", ":1::2", "1::2:", ":1:2:3:4:5:6:7:8", "1:2:3:4:5:6:7:8:", "::1:", ":1::"] {
        assert_eq!(groups(text), None, "{}", text);
    }
}

#[test]
fn refuses_fields_that_are_no_groups() {
    for text in [
        "12345::",
        "::12345",
        "g::",
        "::fffg",
        "1:2:3:4:5:6:7:-8",
        "1:2:3:4:5:6:7:8 ",
        " ::1",
        "::1%eth0",
        "[::1]",
        "::\u{ff11}",
        "fe80::x",
    ] {
        assert_eq!(groups(text), None, "{}", text);
    }
}

#[test]
fn refuses_a_wrong_dotted_quad() {
    for text in [
        "::1.2.3",
        "::1.2.3.4.5",
        "::1.2.3.256",
        "::1.2.3.1000",
        "::01.2.3.4",
        "::1.2.3.04",
        "::1.2..4",
        "::1.2.3.",
        "::.1.2.3",
        "::1.2.3.a",
        "1.2.3.4::",
        "1.2.3.4:2:3:4:5:6:7",
        "::1.2.3.4:5",
        "1.2.3.4",
    ] {
        assert_eq!(groups(text), None, "{}", text);
    }
}

#[test]
fn reads_characters_as_it_reads_text() {
    let chars: Vec<char> = "2001:db8::1".chars().collect();
    assert_eq!(
        parse_chars(&chars),
        Some(Ipv6Address { segments: [0x2001, 0xdb8, 0, 0, 0, 0, 0, 1] })
    );
    let none: Vec<char> = "2001:db8:1".chars().collect();
    assert_eq!(parse_chars(&none), None);
}
