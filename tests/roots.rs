use dns_resolver::named_root::NamedRoot;

const HINTS: &str = ".                        3600000      NS    A.ROOT-SERVERS.NET.
A.ROOT-SERVERS.NET.      3600000      A     198.41.0.4
A.ROOT-SERVERS.NET.      3600000      AAAA  2001:503:ba3e::2:30
.                        3600000      NS    B.ROOT-SERVERS.NET.
B.ROOT-SERVERS.NET.      3600000      A     170.247.170.2
B.ROOT-SERVERS.NET.      3600000      AAAA  2801:1b8:10::b
";

fn lines() -> Vec<String> {
    HINTS.split('\n').map(|l| l.to_string()).collect()
}

#[test]
fn new_drops_trailing_dot() {
    let r = NamedRoot::new("A.ROOT-SERVERS.NET.", "198.41.0.4", "2001:503:ba3e::2:30");
    assert_eq!(r.domain, "A.ROOT-SERVERS.NET");
    assert_eq!(r.ipv4, "198.41.0.4");
    assert_eq!(r.ipv6, "2001:503:ba3e::2:30");
}

#[test]
fn selects_each_entry() {
    let a = NamedRoot::select_named_root(&lines(), 0);
    assert_eq!((a.domain.as_str(), a.ipv4.as_str(), a.ipv6.as_str()), ("A.ROOT-SERVERS.NET", "198.41.0.4", "2001:503:ba3e::2:30"));
    let b = NamedRoot::select_named_root(&lines(), 1);
    assert_eq!((b.domain.as_str(), b.ipv4.as_str(), b.ipv6.as_str()), ("B.ROOT-SERVERS.NET", "170.247.170.2", "2801:1b8:10::b"));
}

#[test]
fn missing_entry_is_empty() {
    let c = NamedRoot::select_named_root(&lines(), 5);
    assert_eq!((c.domain.as_str(), c.ipv4.as_str(), c.ipv6.as_str()), ("", "", ""));
}

#[test]
fn random_pick_is_one_of_the_entries() {
    let r = NamedRoot::get_named_root(HINTS);
    assert!(r.ipv4 == "198.41.0.4" || r.ipv4 == "170.247.170.2" || r.ipv4.is_empty());
}
