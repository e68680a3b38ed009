use subrecon::collector::{crt_sh_url, decode_entries};
use subrecon::error::{check_usage, Error};
use subrecon::subdomains::{contains_char, normalize, split_lines, trim};

fn as_sorted_set(v: &[String]) -> Vec<String> {
    let mut s: Vec<String> = v.to_vec();
    s.sort();
    s.dedup();
    s
}

#[test]
fn scenario_normalize_two_names() {
    let entries = vec![String::from("www.example.com\napi.example.com")];
    let out = normalize(&entries, "example.com");
    let expected = vec![
        String::from("api.example.com"),
        String::from("example.com"),
        String::from("www.example.com"),
    ];
    assert_eq!(as_sorted_set(&out), expected);
    assert_eq!(out.len(), 3, "no duplicates expected");
}

#[test]
fn normalize_drops_wildcards_and_target() {
    let entries = vec![
        String::from("*.example.com\nexample.com\nmail.example.com"),
        String::from("  example.com  \n*.mail.example.com"),
    ];
    let out = normalize(&entries, "example.com");
    for name in &out {
        assert!(!name.contains('*'), "wildcard kept: {}", name);
    }
    assert_eq!(
        out.iter().filter(|n| n.as_str() == "example.com").count(),
        1,
        "the target is present exactly once"
    );
    assert!(out.iter().any(|n| n == "mail.example.com"));
    assert_eq!(out.len(), 2);
}

#[test]
fn normalize_twice_same_set() {
    let entries = vec![
        String::from("b.example.com\na.example.com"),
        String::from("a.example.com\n\n  b.example.com "),
    ];
    let first = normalize(&entries, "example.com");
    let second = normalize(&entries, "example.com");
    assert_eq!(as_sorted_set(&first), as_sorted_set(&second));
}

#[test]
fn normalize_no_entries_still_probes_target() {
    let entries: Vec<String> = Vec::new();
    let out = normalize(&entries, "example.com");
    assert_eq!(out, vec![String::from("example.com")]);
}

#[test]
fn normalize_trims_pieces() {
    let entries = vec![String::from("  www.example.com\t\n\tapi.example.com  ")];
    let out = normalize(&entries, "example.com");
    let expected = vec![
        String::from("api.example.com"),
        String::from("example.com"),
        String::from("www.example.com"),
    ];
    assert_eq!(as_sorted_set(&out), expected);
}

#[test]
fn trim_strips_whitespace_only_at_ends() {
    assert_eq!(trim(" \t a b \r\n"), String::from("a b"));
    assert_eq!(trim(""), String::from(""));
    assert_eq!(trim(" \t "), String::from(""));
    assert_eq!(trim("plain"), String::from("plain"));
}

#[test]
fn split_lines_keeps_empty_pieces() {
    assert_eq!(
        split_lines("a\nb\n"),
        vec![String::from("a"), String::from("b"), String::from("")]
    );
    assert_eq!(split_lines(""), vec![String::from("")]);
    assert_eq!(split_lines("one"), vec![String::from("one")]);
}

#[test]
fn contains_char_finds_wildcard() {
    assert!(contains_char("*.example.com", '*'));
    assert!(!contains_char("www.example.com", '*'));
}

#[test]
fn decode_entries_reads_name_values() {
    let body = String::from(
        "[{\"name_value\":\"www.example.com\\napi.example.com\",\"id\":7},\
         {\"name_value\":\"mail.example.com\"}]",
    );
    let names = decode_entries(body).expect("well-formed body decodes");
    assert_eq!(
        names,
        vec![
            String::from("www.example.com\napi.example.com"),
            String::from("mail.example.com"),
        ]
    );
}

#[test]
fn decode_entries_empty_array() {
    let names = decode_entries(String::from("[]")).expect("an empty log decodes");
    assert!(names.is_empty());
}

#[test]
fn decode_entries_rejects_bad_shapes() {
    for bad in ["not json at all", "{\"name_value\":\"x\"}", "[{\"other\":1}]", "[3]"] {
        match decode_entries(String::from(bad)) {
            Err(Error::Decoding(kept)) => assert_eq!(kept, bad, "raw body kept for diagnosis"),
            _ => panic!("body {:?} must fail decoding", bad),
        }
    }
}

#[test]
fn error_messages() {
    assert_eq!(
        Error::CliUsage.message(),
        String::from("usage: subrecon <domain.tld>")
    );
    assert_eq!(
        Error::Network(String::from("tls")).message(),
        String::from("the certificate-transparency request failed")
    );
    assert_eq!(
        Error::Decoding(String::from("body")).message(),
        String::from("cannot decode the certificate-transparency response")
    );
}

#[test]
fn crt_sh_url_shape() {
    assert_eq!(
        crt_sh_url("example.com"),
        String::from("https://crt.sh/?q=%25.example.com&output=json")
    );
}

#[test]
fn usage_needs_exactly_one_argument() {
    assert!(check_usage(2).is_ok());
    assert!(matches!(check_usage(1), Err(Error::CliUsage)));
    assert!(matches!(check_usage(3), Err(Error::CliUsage)));
}
