use tcp_speeder::best::BestIps;
use tcp_speeder::hosts::{managed_section, rewrite_hosts, strip_managed_section};

fn best(pairs: &[(&str, &str)]) -> BestIps {
    let mut b = BestIps::new();
    for (d, ip) in pairs {
        b.insert(d.to_string(), ip.to_string());
    }
    b
}

#[test]
fn best_ips_sorted_and_replacing() {
    let b = best(&[("b.com", "2.2.2.2"), ("a.com", "1.1.1.1"), ("c.com", "3.3.3.3"), ("b.com", "9.9.9.9")]);
    assert_eq!(b.len(), 3);
    assert!(!b.is_empty());
    let e: Vec<(String, String)> = b.entries().clone();
    assert_eq!(
        e,
        vec![
            ("a.com".to_string(), "1.1.1.1".to_string()),
            ("b.com".to_string(), "9.9.9.9".to_string()),
            ("c.com".to_string(), "3.3.3.3".to_string()),
        ]
    );
}

#[test]
fn best_ips_order_is_string_order() {
    let names = ["Zeta", "alpha", "é.com", "a", "ab", "B", "z.com", "€"];
    let mut b = BestIps::new();
    for n in names {
        b.insert(n.to_string(), "0".to_string());
    }
    let mut sorted: Vec<String> = names.iter().map(|s| s.to_string()).collect();
    sorted.sort();
    let got: Vec<String> = b.entries().iter().map(|(d, _)| d.clone()).collect();
    assert_eq!(got, sorted);
}

#[test]
fn section_lines_are_address_then_domain() {
    let b = best(&[("b.com", "2.2.2.2"), ("a.com", "1.1.1.1")]);
    assert_eq!(
        managed_section(&b),
        vec!["# TCP Speed Test", "1.1.1.1 a.com", "2.2.2.2 b.com", "# End TCP Speed Test"]
    );
}

#[test]
fn strip_drops_section_and_markers() {
    let lines: Vec<String> = ["127.0.0.1 localhost", " # TCP Speed Test ", "1.1.1.1 a.com", "# End TCP Speed Test", "::1 ip6"]
        .iter()
        .map(|s| s.to_string())
        .collect();
    let (kept, removed) = strip_managed_section(&lines);
    assert_eq!(kept, vec!["127.0.0.1 localhost", "::1 ip6"]);
    assert!(removed);
}

#[test]
fn strip_with_unclosed_section() {
    let lines: Vec<String> = ["a", "# TCP Speed Test", "b"].iter().map(|s| s.to_string()).collect();
    let (kept, removed) = strip_managed_section(&lines);
    assert_eq!(kept, vec!["a"]);
    assert!(!removed);
}

#[test]
fn rewrite_with_no_addresses_leaves_file() {
    assert_eq!(rewrite_hosts("127.0.0.1 localhost\n", &BestIps::new()), None);
}

#[test]
fn first_rewrite_appends_marker_pair_and_section() {
    let b = best(&[("a.com", "1.1.1.1")]);
    let out = rewrite_hosts("127.0.0.1 localhost\n", &b).unwrap();
    assert_eq!(
        out,
        "127.0.0.1 localhost\n\n# TCP Speed Test\n# End TCP Speed Test\n# TCP Speed Test\n1.1.1.1 a.com\n# End TCP Speed Test\n"
    );
}

#[test]
fn rewrite_replaces_existing_section() {
    let text = "127.0.0.1 localhost\n# TCP Speed Test\n1.1.1.1 a.com\n# End TCP Speed Test\n::1 ip6\n";
    let b = best(&[("a.com", "5.5.5.5"), ("b.com", "6.6.6.6")]);
    let out = rewrite_hosts(text, &b).unwrap();
    assert_eq!(
        out,
        "127.0.0.1 localhost\n::1 ip6\n# TCP Speed Test\n5.5.5.5 a.com\n6.6.6.6 b.com\n# End TCP Speed Test\n"
    );
}

#[test]
fn rewrite_twice_equals_rewrite_once_with_latest() {
    let text = "x\r\ny\n# TCP Speed Test\n# End TCP Speed Test\n";
    let a = best(&[("a.com", "1.1.1.1")]);
    let b = best(&[("b.com", "2.2.2.2")]);
    let once = rewrite_hosts(text, &a).unwrap();
    assert_eq!(rewrite_hosts(&once, &b), rewrite_hosts(text, &b));
}

#[test]
fn rewrites_settle_after_the_first() {
    let text = "127.0.0.1 localhost";
    let a = best(&[("a.com", "1.1.1.1")]);
    let b = best(&[("b.com", "2.2.2.2")]);
    let c = best(&[("c.com", "3.3.3.3")]);
    let t1 = rewrite_hosts(text, &a).unwrap();
    let t2 = rewrite_hosts(&t1, &b).unwrap();
    assert_eq!(rewrite_hosts(&t2, &c), rewrite_hosts(&t1, &c));
    assert_eq!(
        t2,
        "127.0.0.1 localhost\n\n# TCP Speed Test\n2.2.2.2 b.com\n# End TCP Speed Test\n"
    );
}

#[test]
fn repeating_a_rewrite_changes_nothing() {
    let text = "127.0.0.1 localhost\n# TCP Speed Test\n9.9.9.9 old.com\r\n# End TCP Speed Test\n";
    let a = best(&[("a.com", "1.1.1.1"), ("# TCP Speed Test", "")]);
    let once = rewrite_hosts(text, &a).unwrap();
    assert_eq!(rewrite_hosts(&once, &a), Some(once.clone()));
}

#[test]
fn repeating_a_rewrite_with_cr_and_closing_last_entry() {
    let text = "127.0.0.1 localhost\n# End TCP Speed Test\n";
    let a = best(&[("A.com\r", "1.1.1.1"), ("TCP Speed Test", "# End")]);
    let once = rewrite_hosts(text, &a).unwrap();
    assert_eq!(rewrite_hosts(&once, &a), Some(once.clone()));
}
