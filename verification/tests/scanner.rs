use subrecon::common_ports::most_common_ports;
use subrecon::report::{csv_line, sort_hosts, str_le, u16_to_string};
use subrecon::model::{DnsOutcome, Port, Subdomain};
use subrecon::ports::{classify_port, collect_open_ports, scan_all, scan_host, sort_ports, HostProbe};
use subrecon::collector::decode_entries;
use subrecon::subdomains::{keep_resolved, normalize, outcome_resolves};

#[test]
fn catalog_has_one_hundred_distinct_ports() {
    let catalog = most_common_ports();
    assert_eq!(catalog.len(), 100);
    let mut sorted = catalog.clone();
    sorted.sort();
    sorted.dedup();
    assert_eq!(sorted.len(), 100, "catalog ports are pairwise distinct");
    assert!(catalog.contains(&80) && catalog.contains(&443) && catalog.contains(&22));
}

#[test]
fn classify_is_open_only_on_success() {
    let open = classify_port(443, true);
    assert_eq!((open.port, open.is_open), (443, true));
    let closed = classify_port(443, false);
    assert_eq!((closed.port, closed.is_open), (443, false));
}

#[test]
fn outcome_resolves_only_with_addresses() {
    assert!(outcome_resolves(&DnsOutcome::Resolved));
    assert!(!outcome_resolves(&DnsOutcome::NoAddresses));
    assert!(!outcome_resolves(&DnsOutcome::TimedOut));
    assert!(!outcome_resolves(&DnsOutcome::Failed));
}

#[test]
fn timeout_and_no_record_drop_identically() {
    let candidates = vec![String::from("a.example.com"), String::from("b.example.com")];
    let with_timeout = keep_resolved(
        &candidates,
        &vec![DnsOutcome::Resolved, DnsOutcome::TimedOut],
    );
    let with_no_record = keep_resolved(
        &candidates,
        &vec![DnsOutcome::Resolved, DnsOutcome::NoAddresses],
    );
    let domains = |hosts: &Vec<Subdomain>| -> Vec<String> {
        hosts.iter().map(|h| h.domain.clone()).collect()
    };
    assert_eq!(domains(&with_timeout), domains(&with_no_record));
    assert_eq!(domains(&with_timeout), vec![String::from("a.example.com")]);
}

#[test]
fn filter_output_is_subset_with_addresses() {
    let candidates = vec![
        String::from("a.example.com"),
        String::from("b.example.com"),
        String::from("c.example.com"),
    ];
    let outcomes = vec![DnsOutcome::Failed, DnsOutcome::Resolved, DnsOutcome::Resolved];
    let hosts = keep_resolved(&candidates, &outcomes);
    assert_eq!(hosts.len(), 2);
    for host in &hosts {
        assert!(candidates.contains(&host.domain));
        assert!(host.has_address);
        assert!(host.open_ports.is_empty());
    }
    assert!(!hosts.iter().any(|h| h.domain == "a.example.com"));
}

#[test]
fn scenario_ports_80_and_443_open() {
    let catalog = most_common_ports();
    let results: Vec<bool> = catalog.iter().map(|p| *p == 80 || *p == 443).collect();
    let open = collect_open_ports(&catalog, &results);
    let sorted = sort_ports(&open);
    let numbers: Vec<u16> = sorted.iter().map(|p| p.port).collect();
    assert_eq!(numbers, vec![80, 443]);
    assert!(sorted.iter().all(|p| p.is_open));
}

#[test]
fn no_port_recorded_twice_and_none_invented() {
    let catalog = most_common_ports();
    let results: Vec<bool> = catalog.iter().map(|p| p % 2 == 0).collect();
    let open = collect_open_ports(&catalog, &results);
    let mut numbers: Vec<u16> = open.iter().map(|p| p.port).collect();
    numbers.sort();
    let deduped_len = {
        let mut d = numbers.clone();
        d.dedup();
        d.len()
    };
    assert_eq!(numbers.len(), deduped_len, "no port appears twice");
    for p in &open {
        let i = catalog.iter().position(|c| *c == p.port).expect("port is from the catalog");
        assert!(results[i], "only successful connects are recorded");
    }
    assert_eq!(open.len(), results.iter().filter(|b| **b).count());
}

#[test]
fn host_without_usable_address_keeps_no_ports() {
    let catalog = vec![80u16, 443];
    let host = Subdomain {
        domain: String::from("dark.example.com"),
        has_address: true,
        open_ports: Vec::new(),
    };
    let probe = HostProbe { address_available: false, connect_ok: Vec::new() };
    let scanned = scan_host(host, &catalog, &probe);
    assert_eq!(scanned.domain, "dark.example.com");
    assert!(scanned.has_address);
    assert!(scanned.open_ports.is_empty());
}

#[test]
fn unresolved_host_never_reaches_the_scan() {
    let entries = vec![String::from("gone.example.com\nlive.example.com")];
    let candidates = normalize(&entries, "example.com");
    let outcomes: Vec<DnsOutcome> = candidates
        .iter()
        .map(|c| {
            if c == "gone.example.com" {
                DnsOutcome::Failed
            } else {
                DnsOutcome::Resolved
            }
        })
        .collect();
    let hosts = keep_resolved(&candidates, &outcomes);
    let catalog = vec![80u16, 443];
    let probes: Vec<HostProbe> = hosts
        .iter()
        .map(|_| HostProbe { address_available: true, connect_ok: vec![true, false] })
        .collect();
    let report = scan_all(hosts, &catalog, &probes);
    assert_eq!(report.len(), 2);
    assert!(!report.iter().any(|h| h.domain == "gone.example.com"));
    for host in &report {
        assert_eq!(
            host.open_ports.iter().map(|p| p.port).collect::<Vec<u16>>(),
            vec![80]
        );
    }
}

#[test]
fn sort_orders_by_port_and_keeps_records() {
    let unsorted = vec![
        Port { port: 8080, is_open: true },
        Port { port: 22, is_open: true },
        Port { port: 443, is_open: true },
        Port { port: 22, is_open: true },
    ];
    let sorted = sort_ports(&unsorted);
    let numbers: Vec<u16> = sorted.iter().map(|p| p.port).collect();
    assert_eq!(numbers, vec![22, 22, 443, 8080]);
}

#[test]
fn decimal_writing_of_ports() {
    assert_eq!(u16_to_string(0), String::from("0"));
    assert_eq!(u16_to_string(7), String::from("7"));
    assert_eq!(u16_to_string(80), String::from("80"));
    assert_eq!(u16_to_string(443), String::from("443"));
    assert_eq!(u16_to_string(65535), String::from("65535"));
}

#[test]
fn csv_line_lists_domain_then_ports() {
    let host = Subdomain {
        domain: String::from("www.example.com"),
        has_address: true,
        open_ports: vec![Port { port: 80, is_open: true }, Port { port: 443, is_open: true }],
    };
    assert_eq!(csv_line(&host), String::from("www.example.com,80,443"));
    let bare = Subdomain {
        domain: String::from("quiet.example.com"),
        has_address: true,
        open_ports: Vec::new(),
    };
    assert_eq!(csv_line(&bare), String::from("quiet.example.com"));
}

#[test]
fn str_le_is_lexicographic() {
    assert!(str_le("a.example.com", "b.example.com"));
    assert!(!str_le("b.example.com", "a.example.com"));
    assert!(str_le("api", "api"));
    assert!(str_le("api", "api.example.com"));
    assert!(!str_le("api.example.com", "api"));
    assert!(str_le("", "anything"));
}

#[test]
fn sort_hosts_orders_by_domain() {
    let make = |d: &str| Subdomain {
        domain: String::from(d),
        has_address: true,
        open_ports: Vec::new(),
    };
    let hosts = vec![make("c.example.com"), make("a.example.com"), make("b.example.com")];
    let sorted = sort_hosts(hosts);
    let domains: Vec<String> = sorted.iter().map(|h| h.domain.clone()).collect();
    assert_eq!(
        domains,
        vec![
            String::from("a.example.com"),
            String::from("b.example.com"),
            String::from("c.example.com"),
        ]
    );
}

#[test]
fn zero_entries_pipeline_still_scans_target() {
    let entries = decode_entries(String::from("[]")).expect("an empty log decodes");
    let candidates = normalize(&entries, "example.com");
    assert_eq!(candidates, vec![String::from("example.com")]);
    let hosts = keep_resolved(&candidates, &vec![DnsOutcome::Resolved]);
    let catalog = vec![80u16];
    let probes = vec![HostProbe { address_available: true, connect_ok: vec![false] }];
    let report = scan_all(hosts, &catalog, &probes);
    assert_eq!(report.len(), 1);
    assert_eq!(report[0].domain, "example.com");
    assert!(report[0].open_ports.is_empty());
}
