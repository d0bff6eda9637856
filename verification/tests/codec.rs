use tosh::address::Ipv6Address;
use tosh::codec::{build_ip, fill_template, fmt_ipv6_expanded};
use tosh::error::Error;

const TEMPLATE: &str = "fd15:4ba5:5a2b:1008:20c:29ff:fexx:xxxx";

#[test]
fn fills_the_code_into_the_template() {
    assert_eq!(
        build_ip(TEMPLATE, 123456),
        Ok("fd15:4ba5:5a2b:1008:20c:29ff:fe12:3456".to_string())
    );
}

#[test]
fn five_placeholders_are_too_few() {
    assert_eq!(
        build_ip("fd15:4ba5:5a2b:1008:20c:29ff:fe0x:xxxx", 123456),
        Err(Error::TooFewPlaceholders)
    );
}

#[test]
fn seven_placeholders_are_too_many() {
    assert_eq!(
        build_ip("fd15:4ba5:5a2b:1008:20c:29ff:fxxx:xxxx", 123456),
        Err(Error::TooManyPlaceholders)
    );
}

#[test]
fn no_placeholder_is_too_few() {
    assert_eq!(build_ip("::1", 0), Err(Error::TooFewPlaceholders));
    assert_eq!(build_ip("", 999_999), Err(Error::TooFewPlaceholders));
}

#[test]
fn many_placeholders_are_too_many() {
    assert_eq!(
        build_ip("xxxx:xxxx:xxxx:xxxx:xxxx:xxxx:xxxx:xxxx", 1),
        Err(Error::TooManyPlaceholders)
    );
}

#[test]
fn wrong_count_fails_for_any_code() {
    for code in [0u32, 5, 99_999, 100_000, 123_456, 999_999] {
        assert_eq!(build_ip("fe80::xxxx:x", code), Err(Error::TooFewPlaceholders));
        assert_eq!(build_ip("fe80::xxxx:xxx", code), Err(Error::TooManyPlaceholders));
    }
}

#[test]
fn a_small_code_keeps_its_zeros() {
    assert_eq!(
        build_ip(TEMPLATE, 5),
        Ok("fd15:4ba5:5a2b:1008:20c:29ff:fe00:0005".to_string())
    );
    assert_eq!(
        build_ip(TEMPLATE, 0),
        Ok("fd15:4ba5:5a2b:1008:20c:29ff:fe00:0000".to_string())
    );
    assert_eq!(
        build_ip(TEMPLATE, 99_999),
        Ok("fd15:4ba5:5a2b:1008:20c:29ff:fe09:9999".to_string())
    );
}

#[test]
fn the_largest_code_fits() {
    assert_eq!(
        build_ip(TEMPLATE, 999_999),
        Ok("fd15:4ba5:5a2b:1008:20c:29ff:fe99:9999".to_string())
    );
}

#[test]
fn a_code_of_seven_digits_is_refused() {
    assert_eq!(build_ip(TEMPLATE, 1_000_000), Err(Error::CodeOutOfRange));
    assert_eq!(build_ip(TEMPLATE, u32::MAX), Err(Error::CodeOutOfRange));
    assert_eq!(build_ip("xxxxxxx", 1_000_000), Err(Error::CodeOutOfRange));
}

#[test]
fn placeholders_may_stand_anywhere() {
    assert_eq!(build_ip("x:x:x:x:x:x::", 123456), Ok("1:2:3:4:5:6::".to_string()));
    assert_eq!(build_ip("xx01::xxxx", 987654), Ok("9801::7654".to_string()));
    assert_eq!(build_ip("::ffff:1x.x.xx.1xx", 123456), Ok("::ffff:11.2.34.156".to_string()));
}

#[test]
fn only_the_placeholders_change() {
    let template = "2001:db8:x0x0:0x0x:abcd:ef01:Fx:x";
    let filled = build_ip(template, 314159).unwrap();
    assert_eq!(filled, "2001:db8:3010:0401:abcd:ef01:F5:9");
    let digits: Vec<char> = "314159".chars().collect();
    let mut next = 0;
    for (before, after) in template.chars().zip(filled.chars()) {
        if before == 'x' {
            assert_eq!(after, digits[next]);
            next += 1;
        } else {
            assert_eq!(after, before);
        }
    }
    assert_eq!(next, 6);
    assert_eq!(template.chars().count(), filled.chars().count());
}

#[test]
fn a_filled_template_must_spell_an_address() {
    assert_eq!(build_ip("xxxxxx", 123456), Err(Error::InvalidAddress));
    assert_eq!(
        build_ip("fd15:4ba5:5a2b:1008:20c:29ff:fexx:xxxx:1", 123456),
        Err(Error::InvalidAddress)
    );
    assert_eq!(build_ip("fe80::xxxxx:x", 123456), Err(Error::InvalidAddress));
    assert_eq!(build_ip("hello::xxxx:xx", 123456), Err(Error::InvalidAddress));
    assert_eq!(build_ip("::1.2.3.xxxxxx", 123456), Err(Error::InvalidAddress));
    assert_eq!(build_ip("::1.2.3.xxxxxx", 255), Err(Error::InvalidAddress));
}

#[test]
fn an_upper_case_x_is_no_placeholder() {
    assert_eq!(build_ip("fe80::XXxx:xxxx", 123456), Err(Error::InvalidAddress));
    assert_eq!(build_ip("fe80::XXXX:XXXX", 123456), Err(Error::TooFewPlaceholders));
}

#[test]
fn fill_template_gives_text_and_address() {
    let template: Vec<char> = TEMPLATE.chars().collect();
    let (text, address) = fill_template(&template, 123456).unwrap();
    assert_eq!(text.iter().collect::<String>(), "fd15:4ba5:5a2b:1008:20c:29ff:fe12:3456");
    assert_eq!(
        address,
        Ipv6Address { segments: [0xfd15, 0x4ba5, 0x5a2b, 0x1008, 0x020c, 0x29ff, 0xfe12, 0x3456] }
    );
    assert_eq!(fill_template(&template, 1_000_000), Err(Error::CodeOutOfRange));
}

#[test]
fn a_template_from_an_address() {
    let address =
        Ipv6Address { segments: [0xfd15, 0x4ba5, 0x5a2b, 0x1008, 0x020c, 0x29ff, 0xfe12, 0x3456] };
    assert_eq!(fmt_ipv6_expanded(&address), "fd15:4ba5:5a2b:1008:020c:29ff:fexx:xxxx");
}

#[test]
fn a_template_from_zeros_and_from_ones() {
    assert_eq!(
        fmt_ipv6_expanded(&Ipv6Address { segments: [0; 8] }),
        "0000:0000:0000:0000:0000:0000:00xx:xxxx"
    );
    assert_eq!(
        fmt_ipv6_expanded(&Ipv6Address { segments: [0xffff; 8] }),
        "ffff:ffff:ffff:ffff:ffff:ffff:ffxx:xxxx"
    );
    assert_eq!(
        fmt_ipv6_expanded(&Ipv6Address { segments: [1, 0x23, 0x456, 0x789a, 0xbcde, 0xf, 0xa0b, 7] }),
        "0001:0023:0456:789a:bcde:000f:0axx:xxxx"
    );
}

#[test]
fn a_derived_template_has_six_placeholders_at_the_end() {
    let address = Ipv6Address { segments: [0x2001, 0xdb8, 0, 0, 0, 0xabcd, 0x12ef, 0x9876] };
    let template = fmt_ipv6_expanded(&address);
    assert_eq!(template.len(), 39);
    let marks: Vec<usize> =
        template.chars().enumerate().filter(|(_, c)| *c == 'x').map(|(i, _)| i).collect();
    assert_eq!(marks, vec![32, 33, 35, 36, 37, 38]);
}

#[test]
fn filling_a_derived_template_changes_the_last_six_digits() {
    let address = Ipv6Address { segments: [0x2001, 0xdb8, 0, 0, 0, 0xabcd, 0x12ef, 0x9876] };
    let template = fmt_ipv6_expanded(&address);
    assert_eq!(
        build_ip(&template, 40_506),
        Ok("2001:0db8:0000:0000:0000:abcd:1204:0506".to_string())
    );
    for code in [0u32, 1, 123_456, 999_999] {
        assert!(build_ip(&template, code).is_ok());
    }
}
