use dnsmasq::dns::dnssec::trust_anchors::{
    class_from_name, Rfc5011State, TrustAnchor, TrustAnchorStore, C_CHAOS, C_HESIOD, C_IN,
};
use dnsmasq::dns::name::DomainName;
use dnsmasq::error::{ConfigError, DnsmasqError, DnssecError};

#[test]
fn test_trust_anchor_creation_valid() {
    let domain = DomainName::new(".").unwrap();
    let digest = vec![
        0x49, 0xAA, 0xC1, 0x1D, 0x7B, 0x6F, 0x64, 0x46, 0x70, 0x2E, 0x54, 0xA1, 0x60, 0x73, 0x71,
        0x60, 0x7A, 0x1A, 0x41, 0x85, 0x52, 0x00, 0xFD, 0x2C, 0xE1, 0xCD, 0xDE, 0x32, 0xF2, 0x4E,
        0x8F, 0xB5,
    ];

    let anchor = TrustAnchor::new(domain, 1, 20326, 8, 2, digest);

    assert!(anchor.is_ok());
    let anchor = anchor.unwrap();
    assert_eq!(anchor.keytag, 20326);
    assert_eq!(anchor.algorithm, 8);
    assert_eq!(anchor.digest_type, 2);
}

#[test]
fn test_trust_anchor_invalid_algorithm() {
    let domain = DomainName::new(".").unwrap();
    let digest = vec![0u8; 32];

    let anchor = TrustAnchor::new(domain, 1, 20326, 99, 2, digest);

    assert!(anchor.is_err());
}

#[test]
fn test_trust_anchor_store_creation() {
    let store = TrustAnchorStore::new();
    assert_eq!(store.len(), 0);
}

#[test]
fn test_add_trust_anchor() {
    let mut store = TrustAnchorStore::new();
    let domain = DomainName::new("example.com").unwrap();
    let digest = vec![0u8; 32];

    let anchor = TrustAnchor::new(domain.clone(), 1, 12345, 8, 2, digest).unwrap();

    let result = store.add_anchor(anchor);
    assert!(result.is_ok());
    assert_eq!(store.len(), 1);
}

#[test]
fn test_find_anchor_exact_match() {
    let mut store = TrustAnchorStore::new();
    let domain = DomainName::new("example.com").unwrap();
    let digest = vec![0u8; 32];

    let anchor = TrustAnchor::new(domain.clone(), 1, 12345, 8, 2, digest).unwrap();
    store.add_anchor(anchor).unwrap();

    let query_name = DomainName::new("example.com").unwrap();
    let found = store.find_anchor(&query_name);

    assert!(found.is_some());
    let anchors = found.unwrap();
    assert_eq!(anchors.len(), 1);
    assert_eq!(anchors[0].keytag, 12345);
}

#[test]
fn test_find_anchor_none() {
    let store = TrustAnchorStore::new();

    let query_name = DomainName::new("example.com").unwrap();
    let found = store.find_anchor(&query_name);

    assert!(found.is_none());
}

#[test]
fn test_remove_anchor() {
    let mut store = TrustAnchorStore::new();
    let domain = DomainName::new("example.com").unwrap();
    let digest = vec![0u8; 32];

    let anchor = TrustAnchor::new(domain.clone(), 1, 12345, 8, 2, digest).unwrap();
    store.add_anchor(anchor).unwrap();
    assert_eq!(store.len(), 1);

    let result = store.remove_anchor(&domain, 12345);
    assert!(result.is_ok());
    assert_eq!(store.len(), 0);
}

#[test]
fn test_clear_anchors() {
    let mut store = TrustAnchorStore::new();
    let domain = DomainName::new(".").unwrap();
    let digest = vec![0u8; 32];

    let anchor = TrustAnchor::new(domain, 1, 20326, 8, 2, digest).unwrap();
    store.add_anchor(anchor).unwrap();
    assert_eq!(store.len(), 1);

    store.clear();
    assert_eq!(store.len(), 0);
}

#[test]
fn test_case_insensitive_matching() {
    let mut store = TrustAnchorStore::new();

    let domain = DomainName::new("Example.COM").unwrap();
    let digest = vec![0u8; 32];
    let anchor = TrustAnchor::new(domain, 1, 12345, 8, 2, digest).unwrap();
    store.add_anchor(anchor).unwrap();

    let query_name = DomainName::new("example.com").unwrap();
    let found = store.find_anchor(&query_name);

    assert!(found.is_some());
}

#[test]
fn test_multiple_anchors_same_domain() {
    let mut store = TrustAnchorStore::new();
    let domain = DomainName::new(".").unwrap();

    let digest1 = vec![1u8; 32];
    let anchor1 = TrustAnchor::new(domain.clone(), 1, 19036, 8, 2, digest1).unwrap();
    store.add_anchor(anchor1).unwrap();

    let digest2 = vec![2u8; 32];
    let anchor2 = TrustAnchor::new(domain.clone(), 1, 20326, 8, 2, digest2).unwrap();
    store.add_anchor(anchor2).unwrap();

    assert_eq!(store.len(), 2);

    let query_name = DomainName::new(".").unwrap();
    let found = store.find_anchor(&query_name);
    assert!(found.is_some());
    assert_eq!(found.unwrap().len(), 2);
}

fn name(text: &str) -> DomainName {
    DomainName::new(text).unwrap()
}

fn anchor(text: &str, tag: u16) -> TrustAnchor {
    TrustAnchor::new(name(text), 1, tag, 8, 1, vec![0; 20]).unwrap()
}

fn failure<T>(r: Result<T, DnsmasqError>) -> String {
    match r {
        Err(DnsmasqError::Dnssec(DnssecError::TrustAnchorFailed { reason })) => reason,
        Err(DnsmasqError::Config(ConfigError::ParseError { file_path, line_number, reason })) => {
            format!("{}:{}: {}", file_path, line_number, reason)
        }
        _ => panic!("expected an error"),
    }
}

#[test]
fn anchors_must_fit() {
    let make = |a: u8, t: u8, n: usize| TrustAnchor::new(name("a"), 1, 1, a, t, vec![0; n]);
    assert_eq!(failure(make(2, 1, 20)), "Invalid DNSSEC algorithm: 2");
    assert_eq!(failure(make(8, 3, 20)), "Invalid digest type: 3");
    assert_eq!(
        failure(make(8, 4, 20)),
        "Invalid digest length for type 4: expected 48, got 20"
    );
    assert!(make(15, 4, 48).is_ok());
}

#[test]
fn the_closest_anchor_is_found() {
    let mut store = TrustAnchorStore::default();
    assert!(store.is_empty());
    store.add_anchor(anchor(".", 1)).unwrap();
    store.add_anchor(anchor("example.com", 2)).unwrap();
    store.add_anchor(anchor("sub.example.com", 3)).unwrap();
    assert_eq!(store.find_anchor(&name("x.sub.EXAMPLE.com")).unwrap()[0].keytag(), 3);
    assert_eq!(store.find_anchor(&name("x.example.com")).unwrap()[0].keytag(), 2);
    assert_eq!(store.find_anchor(&name("org")).unwrap()[0].keytag(), 1);
    assert_eq!(store.len(), 3);
    assert!(!store.is_empty());
    assert!(store.validate().is_ok());
    let tags: Vec<u16> =
        store.iter().iter().flat_map(|(_, a)| a.iter().map(|x| x.keytag())).collect();
    assert_eq!(tags.len(), 3);
}

#[test]
fn anchors_that_are_not_there_cannot_be_removed() {
    let mut store = TrustAnchorStore::new();
    store.add_anchor(anchor("example.com", 2)).unwrap();
    assert_eq!(
        failure(store.remove_anchor(&name("example.com"), 3)),
        "Trust anchor not found: domain=example.com, keytag=3"
    );
    assert_eq!(
        failure(store.remove_anchor(&name("org"), 2)),
        "Trust anchor not found: domain=org, keytag=2"
    );
    assert_eq!(store.len(), 1);
}

#[test]
fn invalid_anchors_are_not_added() {
    let mut store = TrustAnchorStore::new();
    let mut bad = anchor("a", 1);
    bad.digest = vec![];
    assert_eq!(
        failure(store.add_anchor(bad)),
        "Invalid digest length for type 1: expected 20, got 0"
    );
    assert!(store.is_empty());
}

#[test]
fn rollover_states_are_kept() {
    let mut a = anchor("a.b", 7);
    assert!(a.rfc5011_state().is_none());
    a.set_rfc5011_state(Some(Rfc5011State::AddHold));
    assert_eq!(a.rfc5011_state(), Some(&Rfc5011State::AddHold));
    assert_eq!(a.domain(), &name("a.b"));
    assert_eq!((a.class(), a.algorithm(), a.digest_type()), (1, 8, 1));
    assert_eq!(a.digest(), &[0; 20]);
}

#[test]
fn lines_are_read() {
    let store = TrustAnchorStore::new();
    let digest = "49AAC11D7B6F6446702E54A1607371607A1A4185";
    let line = format!("trust-anchor=Example.com , ch , 20326,8,1, {} ", digest);
    let a = store.parse_trust_anchor_line(&line, 3, "f").unwrap();
    assert_eq!(a.domain().as_str(), "Example.com");
    assert_eq!(a.class(), C_CHAOS);
    assert_eq!(a.keytag(), 20326);
    assert_eq!(
        a.digest(),
        &[
            0x49, 0xaa, 0xc1, 0x1d, 0x7b, 0x6f, 0x64, 0x46, 0x70, 0x2e, 0x54, 0xa1, 0x60, 0x73,
            0x71, 0x60, 0x7a, 0x1a, 0x41, 0x85
        ]
    );
    let spaced = store.parse_trust_anchor_line(
        ".,1,8,1,49aac11d 7b6f6446 702e54a1 60737160 7a1a4185",
        1,
        "f",
    );
    assert_eq!(spaced.unwrap().digest()[4], 0x7b);
}

#[test]
fn malformed_lines_are_told() {
    let store = TrustAnchorStore::new();
    let read = |line: &str| failure(store.parse_trust_anchor_line(line, 4, "anchors.conf"));
    assert_eq!(
        read("a,b"),
        "anchors.conf:4: trust-anchor requires at least 5 fields: domain,keytag,algorithm,digest_type,digest"
    );
    assert_eq!(
        read("a..b,1,8,1,00"),
        "anchors.conf:4: invalid domain 'a..b': not a domain name"
    );
    assert_eq!(
        read("a,65536,8,1,00"),
        "anchors.conf:4: invalid keytag '65536' (must be 0-65535)"
    );
    assert_eq!(read("a,1,256,1,00"), "anchors.conf:4: invalid algorithm '256' (must be 0-255)");
    assert_eq!(read("a,1,8,x,00"), "anchors.conf:4: invalid digest_type 'x' (must be 0-255)");
    assert_eq!(read("a,1,8,1,0"), "anchors.conf:4: invalid hex digest: Odd number of digits");
    assert_eq!(
        read("a,1,8,1,0g"),
        "anchors.conf:4: invalid hex digest: Invalid character 'g' at position 1"
    );
    assert_eq!(
        read("a,1,8,1,00"),
        "Invalid digest length for type 1: expected 20, got 1"
    );
}

#[test]
fn files_are_read_up_to_the_first_fault() {
    let digest = "00".repeat(20);
    let mut store = TrustAnchorStore::new();
    let good = format!("# anchors\n\n.,1,8,1,{}\ntrust-anchor=org,IN,2,8,1,{}\n", digest, digest);
    store.load_from_text(&good, "f").unwrap();
    assert_eq!(store.len(), 2);
    let bad = format!("net,3,8,1,{}\nnonsense\ncom,4,8,1,{}", digest, digest);
    assert!(failure(store.load_from_text(&bad, "f")).starts_with("f:2: "));
    assert_eq!(store.len(), 3);
    assert_eq!(store.find_anchor(&name("net")).unwrap()[0].keytag(), 3);
    assert_eq!(store.find_anchor(&name("com")).unwrap()[0].keytag(), 1);
}

#[test]
fn classes_have_names() {
    assert_eq!(class_from_name("IN"), Some(C_IN));
    assert_eq!(class_from_name("CH"), Some(C_CHAOS));
    assert_eq!(class_from_name("CHAOS"), Some(C_CHAOS));
    assert_eq!(class_from_name("HS"), Some(C_HESIOD));
    assert_eq!(class_from_name("HESIOD"), Some(C_HESIOD));
    assert_eq!(class_from_name("in"), None);
    let store = TrustAnchorStore::new();
    let digest = "00".repeat(20);
    let unicode = store.parse_trust_anchor_line(&format!("a,\u{df},1,8,1,{}", digest), 1, "f");
    assert_eq!(failure(unicode), "f:1: invalid keytag '\u{df}' (must be 0-65535)");
}

#[test]
fn a_zone_keeps_the_name_that_it_came_with() {
    let mut store = TrustAnchorStore::new();
    store.add_anchor(anchor("Example.COM", 1)).unwrap();
    store.add_anchor(anchor("example.com", 2)).unwrap();
    store.add_anchor(anchor("ORG", 3)).unwrap();
    let names = |s: &TrustAnchorStore| -> Vec<String> {
        s.iter().iter().map(|(n, _)| n.as_str().to_string()).collect()
    };
    assert_eq!(names(&store), vec!["Example.COM", "ORG"]);
    assert_eq!(names(&store.clone()), vec!["Example.COM", "ORG"]);
    store.remove_anchor(&name("EXAMPLE.com"), 1).unwrap();
    assert_eq!(names(&store), vec!["Example.COM", "ORG"]);
    store.remove_anchor(&name("EXAMPLE.com"), 2).unwrap();
    assert_eq!(names(&store), vec!["ORG"]);
    store.add_anchor(anchor("exAMPle.com", 2)).unwrap();
    assert_eq!(names(&store), vec!["exAMPle.com", "ORG"]);
}
