use ddns::address::{address_string, parse_address, Family};
use ddns::config::{qualified_name, Config};

#[test]
fn ipv4_parses_dotted_decimal() {
    assert_eq!(parse_address(Family::V4, "192.168.0.255"), Some(vec![192, 168, 0, 255]));
    assert_eq!(parse_address(Family::V4, "0.0.0.0"), Some(vec![0, 0, 0, 0]));
}

#[test]
fn ipv4_rejects_bad_text() {
    for s in ["", "1.2.3", "1.2.3.4.5", "256.1.1.1", "01.2.3.4", "1..2.3", "1.2.3.a", " 1.2.3.4", "1.2.3.1000"] {
        assert_eq!(parse_address(Family::V4, s), None, "{s}");
    }
}

#[test]
fn ipv6_parses_full_and_compressed_forms() {
    assert_eq!(parse_address(Family::V6, "::"), Some(vec![0; 8]));
    assert_eq!(parse_address(Family::V6, "::1"), Some(vec![0, 0, 0, 0, 0, 0, 0, 1]));
    assert_eq!(parse_address(Family::V6, "1::"), Some(vec![1, 0, 0, 0, 0, 0, 0, 0]));
    assert_eq!(
        parse_address(Family::V6, "2001:DB8::ff00:42:8329"),
        Some(vec![0x2001, 0xdb8, 0, 0, 0, 0xff00, 0x42, 0x8329])
    );
    assert_eq!(parse_address(Family::V6, "1:2:3:4:5:6:7:8"), Some(vec![1, 2, 3, 4, 5, 6, 7, 8]));
    assert_eq!(parse_address(Family::V6, "1::3:4:5:6:7:8"), Some(vec![1, 0, 3, 4, 5, 6, 7, 8]));
}

#[test]
fn ipv6_rejects_bad_text() {
    for s in ["", ":", ":::", "1:::2", "1::2::3", ":1:2:3:4:5:6:7", "1:2:3:4:5:6:7", "1:2:3:4:5:6:7:8:9", "12345::", "g::", "1::2:3:4:5:6:7:8", "1:2:3:4:5:6:7:8::"] {
        assert_eq!(parse_address(Family::V6, s), None, "{s}");
    }
}

#[test]
fn addresses_are_written_plainly() {
    assert_eq!(address_string(Family::V4, &vec![10, 0, 200, 7]), "10.0.200.7");
    assert_eq!(address_string(Family::V6, &vec![0x2001, 0xdb8, 0, 0, 0, 0xff00, 0x42, 0x8329]), "2001:db8::ff00:42:8329");
}

#[test]
fn written_addresses_parse_back() {
    let a = vec![0xffff, 0, 0xabc, 1, 0x10, 0, 0, 7];
    assert_eq!(parse_address(Family::V6, &address_string(Family::V6, &a)), Some(a));
    let b = vec![255, 0, 10, 99];
    assert_eq!(parse_address(Family::V4, &address_string(Family::V4, &b)), Some(b));
}

#[test]
fn apex_record_name_is_the_domain() {
    assert_eq!(qualified_name("@", "example.com"), "example.com.");
}

#[test]
fn label_record_name_is_prefixed() {
    assert_eq!(qualified_name("home", "example.com"), "home.example.com");
}

#[test]
fn config_qualifies_its_record_name() {
    let mut c = Config {
        domain_name: "example.org".to_string(),
        api_key: "k".to_string(),
        record_name: "vpn".to_string(),
        interval: 60,
        manage_records: true,
    };
    c.qualify_record_name();
    assert_eq!(c.record_name, "vpn.example.org");
    assert_eq!(c.domain_name, "example.org");
}

#[test]
fn ipv6_longest_zero_run_is_compressed() {
    assert_eq!(address_string(Family::V6, &vec![0; 8]), "::");
    assert_eq!(address_string(Family::V6, &vec![0, 0, 0, 0, 0, 0, 0, 1]), "::1");
    assert_eq!(address_string(Family::V6, &vec![1, 0, 0, 0, 0, 0, 0, 0]), "1::");
    assert_eq!(address_string(Family::V6, &vec![1, 0, 0, 2, 0, 0, 3, 4]), "1::2:0:0:3:4");
    assert_eq!(address_string(Family::V6, &vec![1, 0, 0, 2, 0, 0, 0, 3]), "1:0:0:2::3");
    assert_eq!(address_string(Family::V6, &vec![1, 0, 2, 3, 4, 5, 6, 7]), "1:0:2:3:4:5:6:7");
    assert_eq!(address_string(Family::V6, &vec![0xffff, 0, 0xabc, 1, 0x10, 0, 0, 7]), "ffff:0:abc:1:10::7");
}

#[test]
fn ipv6_accepts_trailing_ipv4() {
    assert_eq!(
        parse_address(Family::V6, "::ffff:1.2.3.4"),
        Some(vec![0, 0, 0, 0, 0, 0xffff, 0x0102, 0x0304])
    );
    assert_eq!(
        parse_address(Family::V6, "1:2:3:4:5:6:10.0.0.1"),
        Some(vec![1, 2, 3, 4, 5, 6, 0x0a00, 0x0001])
    );
    assert_eq!(parse_address(Family::V6, "::1.2.3.4"), Some(vec![0, 0, 0, 0, 0, 0, 0x0102, 0x0304]));
}

#[test]
fn ipv6_rejects_misplaced_ipv4() {
    for s in ["1.2.3.4::", "1:2:3:4:5:6:7:1.2.3.4", "::1.2.3.4:5", "::01.2.3.4", "1:2:3:4:5:1.2.3.4", "1.2.3.4"] {
        assert_eq!(parse_address(Family::V6, s), None, "{s}");
    }
}
