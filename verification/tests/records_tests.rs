use tcp_speeder::records::{
    cleanup_now, find_port, group_records, retained_records, retention_cutoff, stamp_not_after, without_address, RecordMeta, Stamp,
};

fn rec(domain: &str, ip: &str, port: u16, secs: i64) -> RecordMeta {
    RecordMeta { domain: domain.to_string(), ip: ip.to_string(), port, stamp: Stamp { secs, nanos: 0 } }
}

#[test]
fn cutoff_is_one_hour_earlier() {
    assert_eq!(retention_cutoff(Stamp { secs: 10_000, nanos: 5 }), Stamp { secs: 6_400, nanos: 5 });
}

#[test]
fn cutoff_from_a_leap_second() {
    assert_eq!(retention_cutoff(Stamp { secs: 10_000, nanos: 1_500_000_000 }), Stamp { secs: 6_401, nanos: 500_000_000 });
}

#[test]
fn stamp_order() {
    assert!(stamp_not_after(Stamp { secs: 1, nanos: 5 }, Stamp { secs: 1, nanos: 5 }));
    assert!(stamp_not_after(Stamp { secs: 1, nanos: 9 }, Stamp { secs: 2, nanos: 0 }));
    assert!(!stamp_not_after(Stamp { secs: 2, nanos: 0 }, Stamp { secs: 1, nanos: 999 }));
}

#[test]
fn cleanup_keeps_recent_records() {
    let now = Stamp { secs: 100_000, nanos: 0 };
    let records = vec![
        rec("a.com", "1.1.1.1", 443, 100_000 - 3_601),
        rec("a.com", "1.1.1.2", 443, 100_000 - 3_600),
        rec("b.com", "2.2.2.2", 80, 99_999),
        rec("b.com", "2.2.2.3", 80, 10),
    ];
    assert_eq!(retained_records(&records, now), Some(vec![1, 2]));
}

#[test]
fn cleanup_with_nothing_old_changes_nothing() {
    let now = Stamp { secs: 100_000, nanos: 0 };
    let records = vec![rec("a.com", "1.1.1.1", 443, 99_000), rec("a.com", "1.1.1.2", 443, 100_001)];
    assert_eq!(retained_records(&records, now), None);
    assert_eq!(retained_records(&Vec::new(), now), None);
}

#[test]
fn cleanup_twice_removes_nothing_more() {
    let now = Stamp { secs: 100_000, nanos: 0 };
    let records = vec![rec("a.com", "1.1.1.1", 443, 1), rec("a.com", "1.1.1.2", 443, 99_000)];
    let kept = retained_records(&records, now).unwrap();
    let again: Vec<RecordMeta> = kept.iter().map(|&i| rec(&records[i].domain, &records[i].ip, records[i].port, records[i].stamp.secs)).collect();
    assert_eq!(retained_records(&again, now), None);
}

#[test]
fn removing_an_address_keeps_the_rest() {
    let records = vec![
        rec("a.com", "1.1.1.1", 443, 1),
        rec("b.com", "1.1.1.1", 443, 2),
        rec("a.com", "1.1.1.2", 443, 3),
        rec("a.com", "1.1.1.1", 443, 4),
    ];
    let d = "a.com".to_string();
    let ip = "1.1.1.1".to_string();
    assert_eq!(without_address(&records, &d, &ip), Some(vec![1, 2]));
    let other = "9.9.9.9".to_string();
    assert_eq!(without_address(&records, &d, &other), None);
}

#[test]
fn port_of_first_record_of_domain() {
    let records = vec![rec("a.com", "1", 443, 1), rec("b.com", "2", 80, 2), rec("b.com", "3", 8080, 3)];
    assert_eq!(find_port(&records, &"b.com".to_string()), Some(80));
    assert_eq!(find_port(&records, &"c.com".to_string()), None);
}

#[test]
fn grouping_by_address_and_domain() {
    let records = vec![
        rec("a.com", "1.1.1.1", 443, 1),
        rec("b.com", "2.2.2.2", 80, 2),
        rec("a.com", "1.1.1.2", 444, 3),
        rec("a.com", "1.1.1.1", 445, 4),
        rec("b.com", "2.2.2.2", 81, 5),
    ];
    let g = group_records(&records);
    let addrs: Vec<(String, String, Vec<usize>)> =
        g.addresses.iter().map(|a| (a.domain.clone(), a.ip.clone(), a.members.clone())).collect();
    assert_eq!(
        addrs,
        vec![
            ("a.com".to_string(), "1.1.1.1".to_string(), vec![0, 3]),
            ("b.com".to_string(), "2.2.2.2".to_string(), vec![1, 4]),
            ("a.com".to_string(), "1.1.1.2".to_string(), vec![2]),
        ]
    );
    let doms: Vec<(String, u16, Vec<usize>)> =
        g.domains.iter().map(|d| (d.domain.clone(), d.port, d.candidates.clone())).collect();
    assert_eq!(doms, vec![("a.com".to_string(), 443, vec![0, 2]), ("b.com".to_string(), 80, vec![1])]);
}

#[test]
fn grouping_of_no_records() {
    let g = group_records(&Vec::new());
    assert!(g.addresses.is_empty());
    assert!(g.domains.is_empty());
}

#[test]
fn cleanup_now_uses_the_clock() {
    let records = vec![rec("a.com", "1.1.1.1", 443, 0), rec("a.com", "1.1.1.2", 443, 4_000_000_000_000)];
    assert_eq!(cleanup_now(&records), Ok(Some(vec![1])));
    assert_eq!(cleanup_now(&vec![rec("a.com", "1.1.1.2", 443, 4_000_000_000_000)]), Ok(None));
}

#[test]
fn removing_an_address_twice_removes_nothing_more() {
    let records = vec![rec("a.com", "1.1.1.1", 443, 1), rec("a.com", "1.1.1.2", 443, 2), rec("a.com", "1.1.1.1", 443, 3)];
    let d = "a.com".to_string();
    let ip = "1.1.1.1".to_string();
    let kept = without_address(&records, &d, &ip).unwrap();
    assert_eq!(kept, vec![1]);
    let again: Vec<RecordMeta> = kept.iter().map(|&i| rec(&records[i].domain, &records[i].ip, records[i].port, records[i].stamp.secs)).collect();
    assert_eq!(without_address(&again, &d, &ip), None);
}

#[test]
fn cleanup_at_an_earlier_clock_keeps_everything() {
    let first = Stamp { secs: 100_000, nanos: 0 };
    let second = Stamp { secs: 99_000, nanos: 0 };
    let records = vec![rec("a.com", "1", 443, 96_000), rec("a.com", "2", 443, 96_500), rec("a.com", "3", 443, 99_500)];
    let kept = retained_records(&records, first).unwrap();
    assert_eq!(kept, vec![1, 2]);
    let again: Vec<RecordMeta> = kept.iter().map(|&i| rec(&records[i].domain, &records[i].ip, records[i].port, records[i].stamp.secs)).collect();
    assert_eq!(retained_records(&again, second), None);
}

#[test]
fn removals_commute() {
    let records = vec![rec("a.com", "1", 443, 1), rec("b.com", "2", 443, 2), rec("a.com", "3", 443, 3), rec("b.com", "2", 443, 4)];
    let pick = |rs: &Vec<RecordMeta>, d: &str, ip: &str| -> Vec<RecordMeta> {
        match without_address(rs, &d.to_string(), &ip.to_string()) {
            None => rs.iter().map(|r| rec(&r.domain, &r.ip, r.port, r.stamp.secs)).collect(),
            Some(v) => v.iter().map(|&i| rec(&rs[i].domain, &rs[i].ip, rs[i].port, rs[i].stamp.secs)).collect(),
        }
    };
    let x = pick(&pick(&records, "a.com", "1"), "b.com", "2");
    let y = pick(&pick(&records, "b.com", "2"), "a.com", "1");
    let key = |v: &Vec<RecordMeta>| v.iter().map(|r| (r.domain.clone(), r.ip.clone(), r.stamp.secs)).collect::<Vec<_>>();
    assert_eq!(key(&x), key(&y));
    assert_eq!(key(&x), vec![("a.com".to_string(), "3".to_string(), 3)]);
}
