use ddns::address::{Family, Ipv4, Ipv6};
use ddns::reconcile::{update_record_list, Action, Outcome, ReconcileError, Record, DEFAULT_TTL};

const HOST: &str = "host.example.com.";

fn rec(kind: &str, name: &str, value: &str, ttl: u64) -> Record {
    Record { kind: kind.to_string(), name: name.to_string(), value: value.to_string(), ttl }
}

fn v4(a: u8, b: u8, c: u8, d: u8) -> Option<Ipv4> {
    Some(Ipv4 { octets: [a, b, c, d] })
}

fn v6(segments: [u16; 8]) -> Option<Ipv6> {
    Some(Ipv6 { segments })
}

fn snapshot(rs: &[Record]) -> Vec<(String, String, String, u64)> {
    rs.iter().map(|r| (r.kind.clone(), r.name.clone(), r.value.clone(), r.ttl)).collect()
}

#[test]
fn unmanaged_update_of_existing_a_record() {
    let mut rs = vec![rec("A", HOST, "1.2.3.4", 3600)];
    let out = update_record_list(&mut rs, HOST, false, v4(5, 6, 7, 8), None).unwrap();
    assert!(out.changed);
    assert_eq!(out.v4, Action::Update);
    assert_eq!(out.v6, Action::NoOp);
    assert_eq!(snapshot(&rs), vec![("A".into(), HOST.into(), "5.6.7.8".into(), 3600)]);
}

#[test]
fn managed_creation_of_both_records_with_default_ttl() {
    let mut rs = Vec::new();
    let out = update_record_list(&mut rs, HOST, true, v4(9, 9, 9, 9), v6([0, 0, 0, 0, 0, 0, 0, 1]))
        .unwrap();
    assert_eq!(out, Outcome { changed: true, v4: Action::Create, v6: Action::Create, duplicate_v4: false, duplicate_v6: false });
    assert_eq!(
        snapshot(&rs),
        vec![
            ("A".into(), HOST.into(), "9.9.9.9".into(), 3600),
            ("AAAA".into(), HOST.into(), "::1".into(), 3600),
        ]
    );
    assert_eq!(DEFAULT_TTL, 3600);
}

#[test]
fn unmanaged_missing_ipv6_leaves_aaaa_and_warns() {
    let mut rs = vec![rec("AAAA", HOST, "::2", 1800)];
    let out = update_record_list(&mut rs, HOST, false, None, None).unwrap();
    assert!(!out.changed);
    assert_eq!(out.v6, Action::Warn);
    assert_eq!(snapshot(&rs), vec![("AAAA".into(), HOST.into(), "::2".into(), 1800)]);
}

#[test]
fn created_a_record_inherits_aaaa_ttl() {
    let mut rs = vec![rec("AAAA", HOST, "2001:db8::1", 7200)];
    let out = update_record_list(&mut rs, HOST, true, v4(1, 1, 1, 1), v6([0x2001, 0xdb8, 0, 0, 0, 0, 0, 1]))
        .unwrap();
    assert_eq!(out.v4, Action::Create);
    assert_eq!(out.v6, Action::NoOp);
    assert_eq!(rs.len(), 2);
    assert_eq!(rs[1].kind, "A");
    assert_eq!(rs[1].ttl, 7200);
}

#[test]
fn created_aaaa_record_inherits_a_ttl() {
    let mut rs = vec![rec("A", HOST, "1.1.1.1", 600)];
    let out = update_record_list(&mut rs, HOST, true, v4(1, 1, 1, 1), v6([0xfe80, 0, 0, 0, 0, 0, 0, 5]))
        .unwrap();
    assert_eq!(out.v6, Action::Create);
    assert_eq!(rs[1].value, "fe80::5");
    assert_eq!(rs[1].ttl, 600);
}

#[test]
fn created_ttl_reads_sibling_before_its_update() {
    let mut rs = vec![rec("AAAA", HOST, "::9", 900)];
    let out = update_record_list(&mut rs, HOST, true, v4(10, 0, 0, 1), v6([0, 0, 0, 0, 0, 0, 0, 0xa]))
        .unwrap();
    assert_eq!(out.v4, Action::Create);
    assert_eq!(out.v6, Action::Update);
    assert_eq!(snapshot(&rs), vec![
        ("AAAA".into(), HOST.into(), "::a".into(), 900),
        ("A".into(), HOST.into(), "10.0.0.1".into(), 900),
    ]);
}

#[test]
fn equal_address_is_no_change() {
    let mut rs = vec![rec("A", HOST, "1.1.1.1", 3600)];
    let out = update_record_list(&mut rs, HOST, true, v4(1, 1, 1, 1), None).unwrap();
    assert_eq!(out.v4, Action::NoOp);
    assert!(!out.changed);
}

#[test]
fn non_canonical_ipv6_text_compares_by_value() {
    let mut rs = vec![rec("AAAA", HOST, "2001:DB8:0000::0001", 3600)];
    let out = update_record_list(&mut rs, HOST, true, None, v6([0x2001, 0xdb8, 0, 0, 0, 0, 0, 1]))
        .unwrap();
    assert_eq!(out.v6, Action::NoOp);
    assert!(!out.changed);
    assert_eq!(rs[0].value, "2001:DB8:0000::0001");
}

#[test]
fn managed_deletion_when_address_gone() {
    let mut rs = vec![
        rec("MX", "example.com.", "mail.example.com.", 300),
        rec("A", HOST, "1.2.3.4", 3600),
        rec("AAAA", HOST, "::1", 3600),
        rec("TXT", HOST, "hello", 60),
    ];
    let out = update_record_list(&mut rs, HOST, true, None, v6([0, 0, 0, 0, 0, 0, 0, 1])).unwrap();
    assert_eq!(out, Outcome { changed: true, v4: Action::Delete, v6: Action::NoOp, duplicate_v4: false, duplicate_v6: false });
    assert_eq!(snapshot(&rs), vec![
        ("MX".into(), "example.com.".into(), "mail.example.com.".into(), 300),
        ("AAAA".into(), HOST.into(), "::1".into(), 3600),
        ("TXT".into(), HOST.into(), "hello".into(), 60),
    ]);
}

#[test]
fn unmanaged_missing_record_warns() {
    let mut rs = vec![rec("A", "other.example.com.", "1.2.3.4", 3600)];
    let out = update_record_list(&mut rs, HOST, false, v4(4, 3, 2, 1), None).unwrap();
    assert_eq!(out.v4, Action::Warn);
    assert!(!out.changed);
    assert_eq!(rs.len(), 1);
    assert_eq!(rs[0].value, "1.2.3.4");
}

#[test]
fn nothing_observed_nothing_present() {
    let mut rs = vec![rec("CNAME", "www.example.com.", "example.com.", 3600)];
    let out = update_record_list(&mut rs, HOST, true, None, None).unwrap();
    assert_eq!(out, Outcome { changed: false, v4: Action::NoOp, v6: Action::NoOp, duplicate_v4: false, duplicate_v6: false });
    assert_eq!(rs.len(), 1);
}

#[test]
fn malformed_value_aborts_without_change() {
    let mut rs = vec![rec("A", HOST, "1.2.3", 3600), rec("AAAA", HOST, "::1", 3600)];
    let err = update_record_list(&mut rs, HOST, true, v4(1, 2, 3, 4), v6([9, 0, 0, 0, 0, 0, 0, 0]))
        .unwrap_err();
    assert_eq!(err, ReconcileError::MalformedValue { family: Family::V4 });
    assert_eq!(rs[0].value, "1.2.3");
    assert_eq!(rs[1].value, "::1");
}

#[test]
fn malformed_aaaa_value_is_reported() {
    let mut rs = vec![rec("AAAA", HOST, "1:::2", 3600)];
    let err = update_record_list(&mut rs, HOST, true, None, v6([1, 0, 0, 0, 0, 0, 0, 2])).unwrap_err();
    assert_eq!(err, ReconcileError::MalformedValue { family: Family::V6 });
}

#[test]
fn malformed_value_is_not_read_without_observation() {
    let mut rs = vec![rec("A", HOST, "not an address", 3600)];
    let out = update_record_list(&mut rs, HOST, true, None, None).unwrap();
    assert_eq!(out.v4, Action::Delete);
    assert!(rs.is_empty());
}

#[test]
fn second_cycle_with_same_addresses_changes_nothing() {
    let mut rs = vec![rec("A", HOST, "1.2.3.4", 3600), rec("AAAA", HOST, "::2", 120)];
    let o4 = v4(8, 8, 4, 4);
    let o6 = v6([0x2a00, 0x1450, 0, 0, 0, 0, 0, 0x200e]);
    let first = update_record_list(&mut rs, HOST, true, o4, o6).unwrap();
    assert!(first.changed);
    let after = snapshot(&rs);
    let second = update_record_list(&mut rs, HOST, true, o4, o6).unwrap();
    assert!(!second.changed);
    assert_eq!(snapshot(&rs), after);
}

#[test]
fn single_change_touches_one_family() {
    let mut rs = vec![rec("A", HOST, "1.2.3.4", 3600), rec("AAAA", HOST, "::2", 120)];
    let o6 = v6([0, 0, 0, 0, 0, 0, 0, 2]);
    let settled = update_record_list(&mut rs, HOST, true, v4(1, 2, 3, 4), o6).unwrap();
    assert!(!settled.changed);
    let out = update_record_list(&mut rs, HOST, true, v4(1, 2, 3, 5), o6).unwrap();
    assert_eq!(out, Outcome { changed: true, v4: Action::Update, v6: Action::NoOp, duplicate_v4: false, duplicate_v6: false });
    assert_eq!(snapshot(&rs)[1], ("AAAA".into(), HOST.into(), "::2".into(), 120));
}

#[test]
fn repeated_cycles_keep_one_record_per_family() {
    let mut rs = Vec::new();
    let observations = [
        (v4(1, 1, 1, 1), None),
        (v4(2, 2, 2, 2), v6([1, 2, 3, 4, 5, 6, 7, 8])),
        (None, v6([1, 2, 3, 4, 5, 6, 7, 9])),
        (v4(3, 3, 3, 3), v6([1, 2, 3, 4, 5, 6, 7, 9])),
    ];
    for (o4, o6) in observations {
        update_record_list(&mut rs, HOST, true, o4, o6).unwrap();
        assert!(rs.iter().filter(|r| r.kind == "A" && r.name == HOST).count() <= 1);
        assert!(rs.iter().filter(|r| r.kind == "AAAA" && r.name == HOST).count() <= 1);
    }
    assert_eq!(rs.len(), 2);
}

#[test]
fn unmanaged_policy_never_creates_or_deletes() {
    let mut rs = vec![rec("A", HOST, "1.2.3.4", 100), rec("TXT", HOST, "x", 5)];
    let out = update_record_list(&mut rs, HOST, false, None, v6([1, 0, 0, 0, 0, 0, 0, 1])).unwrap();
    assert_eq!(out, Outcome { changed: false, v4: Action::Warn, v6: Action::Warn, duplicate_v4: false, duplicate_v6: false });
    assert_eq!(snapshot(&rs), vec![
        ("A".into(), HOST.into(), "1.2.3.4".into(), 100),
        ("TXT".into(), HOST.into(), "x".into(), 5),
    ]);
}

#[test]
fn duplicate_records_act_on_first_and_delete_all() {
    let mut rs = vec![rec("A", HOST, "1.1.1.1", 10), rec("A", HOST, "2.2.2.2", 20)];
    let out = update_record_list(&mut rs, HOST, true, v4(3, 3, 3, 3), None).unwrap();
    assert_eq!(out.v4, Action::Update);
    assert!(out.duplicate_v4);
    assert!(!out.duplicate_v6);
    assert_eq!(rs[0].value, "3.3.3.3");
    assert_eq!(rs[1].value, "2.2.2.2");
    let out = update_record_list(&mut rs, HOST, true, None, None).unwrap();
    assert_eq!(out.v4, Action::Delete);
    assert!(rs.is_empty());
}

#[test]
fn ipv4_mapped_aaaa_value_compares_by_value() {
    let mut rs = vec![rec("AAAA", HOST, "::ffff:10.0.0.1", 3600)];
    let out = update_record_list(&mut rs, HOST, true, None, v6([0, 0, 0, 0, 0, 0xffff, 0x0a00, 1]))
        .unwrap();
    assert_eq!(out.v6, Action::NoOp);
    assert_eq!(rs[0].value, "::ffff:10.0.0.1");
}

#[test]
fn single_records_are_not_flagged_as_duplicates() {
    let mut rs = vec![rec("A", HOST, "1.1.1.1", 10), rec("A", "x.example.com.", "1.1.1.1", 10), rec("AAAA", HOST, "::1", 10)];
    let out = update_record_list(&mut rs, HOST, true, v4(1, 1, 1, 1), v6([0, 0, 0, 0, 0, 0, 0, 1])).unwrap();
    assert!(!out.duplicate_v4);
    assert!(!out.duplicate_v6);
    assert!(!out.changed);
}
