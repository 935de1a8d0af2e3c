use dataplane::IpAddress;
use dataplane::LoadError;
use dataplane::Pif;
use dataplane::PifTable;
use dataplane::Prefix;
use dataplane::PrefixTrie;
use dataplane::TrieError;
use dataplane::Vni;
use dataplane::Vpc;

fn v4(addr: u32, len: u8) -> Prefix {
    Prefix::new(IpAddress::V4(addr), len)
}

fn v6(addr: u128, len: u8) -> Prefix {
    Prefix::new(IpAddress::V6(addr), len)
}

fn pif_with_endpoints(name: &str, vpc: &str, endpoints: &[Prefix]) -> Pif {
    let mut pif = Pif::new(name.to_string(), vpc.to_string());
    for p in endpoints {
        pif.add_endpoint(*p);
    }
    pif
}

#[test]
fn lpm_correctness() {
    let mut table = PifTable::new();
    table
        .add_pif(pif_with_endpoints("A", "v", &[v4(0x0A00_0000, 8)]))
        .unwrap();
    table
        .add_pif(pif_with_endpoints("B", "v", &[v4(0x0A01_0000, 16)]))
        .unwrap();
    assert_eq!(
        table.find_pif_by_endpoint(&IpAddress::V4(0x0A01_0203)),
        Some("B".to_string())
    );
    assert_eq!(
        table.find_pif_by_endpoint(&IpAddress::V4(0x0A02_0000)),
        Some("A".to_string())
    );
    assert_eq!(table.find_pif_by_endpoint(&IpAddress::V4(0x0B00_0000)), None);
}

#[test]
fn exact_duplicate_rejected() {
    let mut trie = PrefixTrie::new();
    assert_eq!(trie.insert(&v4(0x0A00_0000, 8), "A".to_string()), Ok(()));
    assert_eq!(
        trie.insert(&v4(0x0A00_0000, 8), "B".to_string()),
        Err(TrieError::EntryExists)
    );
    // The stored value for the exact prefix is unchanged.
    assert_eq!(
        trie.find_ip(&IpAddress::V4(0x0A05_0607)),
        Some("A".to_string())
    );
}

#[test]
fn overlapping_prefixes_accepted() {
    let mut trie = PrefixTrie::new();
    assert_eq!(trie.insert(&v4(0x0A00_0000, 8), "A".to_string()), Ok(()));
    assert_eq!(trie.insert(&v4(0x0A00_0000, 16), "B".to_string()), Ok(()));
    assert_eq!(trie.insert(&v4(0x0A00_0000, 32), "C".to_string()), Ok(()));
    assert_eq!(
        trie.find_ip(&IpAddress::V4(0x0A00_0000)),
        Some("C".to_string())
    );
    assert_eq!(
        trie.find_ip(&IpAddress::V4(0x0A00_0001)),
        Some("B".to_string())
    );
    assert_eq!(
        trie.find_ip(&IpAddress::V4(0x0A01_0001)),
        Some("A".to_string())
    );
}

#[test]
fn name_uniqueness() {
    let mut table = PifTable::new();
    table
        .add_pif(pif_with_endpoints("x", "v", &[v4(0x0A00_0000, 8)]))
        .unwrap();
    let r = table.add_pif(pif_with_endpoints("x", "v", &[v4(0xC0A8_0000, 16)]));
    assert_eq!(r, Err(TrieError::NameExists));
    // Names and trie content are unchanged.
    assert_eq!(table.records().len(), 1);
    assert_eq!(
        table.find_pif_by_endpoint(&IpAddress::V4(0x0A00_0001)),
        Some("x".to_string())
    );
    assert_eq!(table.find_pif_by_endpoint(&IpAddress::V4(0xC0A8_0101)), None);
}

#[test]
fn atomic_registration() {
    let mut table = PifTable::new();
    table
        .add_pif(pif_with_endpoints("a", "v", &[v4(0x0A00_0000, 8)]))
        .unwrap();
    // One fresh prefix, then one that collides with "a".
    let r = table.add_pif(pif_with_endpoints(
        "b",
        "v",
        &[v4(0xC0A8_0000, 16), v4(0x0A00_0000, 8)],
    ));
    assert_eq!(r, Err(TrieError::EntryExists));
    // No trie entry for the other endpoint prefix is observable, and
    // the interface is absent from the name map.
    assert_eq!(table.find_pif_by_endpoint(&IpAddress::V4(0xC0A8_0101)), None);
    assert!(!table.contains_name(&"b".to_string()));
    assert_eq!(table.records().len(), 1);
}

#[test]
fn atomic_registration_duplicate_within_interface() {
    let mut table = PifTable::new();
    let r = table.add_pif(pif_with_endpoints(
        "a",
        "v",
        &[v4(0x0A00_0000, 8), v4(0x0A00_0000, 8)],
    ));
    assert_eq!(r, Err(TrieError::EntryExists));
    assert_eq!(table.find_pif_by_endpoint(&IpAddress::V4(0x0A00_0001)), None);
    assert_eq!(table.records().len(), 0);
}

#[test]
fn round_trip() {
    let mut table = PifTable::new();
    table
        .add_pif(pif_with_endpoints("A", "v", &[v4(0x0A00_0000, 8)]))
        .unwrap();
    table
        .add_pif(pif_with_endpoints("B", "v", &[v4(0x0A01_0000, 16)]))
        .unwrap();
    table
        .add_pif(pif_with_endpoints(
            "C",
            "v",
            &[v6(0x2001_0db8_0000_0000_0000_0000_0000_0000, 32)],
        ))
        .unwrap();
    let probes = [
        IpAddress::V4(0x0A01_0203),
        IpAddress::V4(0x0A02_0000),
        IpAddress::V4(0x0B00_0000),
        IpAddress::V6(0x2001_0db8_0000_0000_0000_0000_0000_0001),
        IpAddress::V6(0x2001_0db9_0000_0000_0000_0000_0000_0001),
    ];
    let before: Vec<Option<String>> = probes
        .iter()
        .map(|ip| table.find_pif_by_endpoint(ip))
        .collect();
    let reloaded = PifTable::from_records(table.records().clone()).unwrap();
    let after: Vec<Option<String>> = probes
        .iter()
        .map(|ip| reloaded.find_pif_by_endpoint(ip))
        .collect();
    assert_eq!(before, after);
}

#[test]
fn load_fails_closed() {
    // Two records claiming the same endpoint prefix cannot be replayed.
    let bad = vec![
        pif_with_endpoints("a", "v", &[v4(0x0A00_0000, 8)]),
        pif_with_endpoints("b", "v", &[v4(0x0A00_0000, 8)]),
    ];
    match PifTable::from_records(bad) {
        Err(LoadError::ReconstructionFailed(e)) => assert_eq!(e, TrieError::EntryExists),
        Ok(_) => panic!("loading must fail closed"),
    }
}

#[test]
fn isolation() {
    let mut red = Vpc::new("red".to_string(), Vni::new(100));
    let mut blue = Vpc::new("blue".to_string(), Vni::new(200));
    // Identical interface names; different prefixes per network.
    red.add_pif(pif_with_endpoints("x", "red", &[v4(0x0A00_0000, 8)]))
        .unwrap();
    blue.add_pif(pif_with_endpoints("x", "blue", &[v4(0xC0A8_0000, 16)]))
        .unwrap();
    // A lookup in one network never returns a result derived from the
    // other's data.
    assert_eq!(
        red.find_pif_by_endpoint(&IpAddress::V4(0x0A01_0101)),
        Some("x".to_string())
    );
    assert_eq!(blue.find_pif_by_endpoint(&IpAddress::V4(0x0A01_0101)), None);
    assert_eq!(red.find_pif_by_endpoint(&IpAddress::V4(0xC0A8_0101)), None);
    assert_eq!(
        blue.find_pif_by_endpoint(&IpAddress::V4(0xC0A8_0101)),
        Some("x".to_string())
    );
}

#[test]
fn empty_table() {
    let table = PifTable::new();
    assert_eq!(table.find_pif_by_endpoint(&IpAddress::V4(0)), None);
    assert_eq!(table.find_pif_by_endpoint(&IpAddress::V4(u32::MAX)), None);
    assert_eq!(table.find_pif_by_endpoint(&IpAddress::V6(0)), None);
    assert_eq!(table.find_pif_by_endpoint(&IpAddress::V6(u128::MAX)), None);
}

#[test]
fn invalid_prefix_rejected() {
    let mut trie = PrefixTrie::new();
    // Host bits set past the mask.
    assert_eq!(
        trie.insert(&v4(0x0A00_0001, 8), "A".to_string()),
        Err(TrieError::InvalidPrefix)
    );
    // Mask longer than the address width.
    assert_eq!(
        trie.insert(&v4(0x0A00_0000, 33), "A".to_string()),
        Err(TrieError::InvalidPrefix)
    );
    let mut table = PifTable::new();
    let r = table.add_pif(pif_with_endpoints("a", "v", &[v4(0x0A00_0001, 8)]));
    assert_eq!(r, Err(TrieError::InvalidPrefix));
    assert_eq!(table.records().len(), 0);
}

#[test]
fn address_families_do_not_mix() {
    let mut table = PifTable::new();
    table
        .add_pif(pif_with_endpoints("four", "v", &[v4(0x0A00_0000, 8)]))
        .unwrap();
    // A 128-bit address whose leading bits equal the stored 32-bit
    // prefix must not match it.
    let look_alike = IpAddress::V6(0x0A00_0000_0000_0000_0000_0000_0000_0000);
    assert_eq!(table.find_pif_by_endpoint(&look_alike), None);
}

#[test]
fn default_route_per_family() {
    let mut table = PifTable::new();
    table
        .add_pif(pif_with_endpoints("any4", "v", &[v4(0, 0)]))
        .unwrap();
    assert_eq!(
        table.find_pif_by_endpoint(&IpAddress::V4(0xDEAD_BEEF)),
        Some("any4".to_string())
    );
    // The zero-length IPv4 prefix covers no IPv6 address.
    assert_eq!(table.find_pif_by_endpoint(&IpAddress::V6(1)), None);
}

#[test]
fn host_prefix_matches_exactly() {
    let mut table = PifTable::new();
    table
        .add_pif(pif_with_endpoints("h", "v", &[v4(0x0A00_0001, 32)]))
        .unwrap();
    assert_eq!(
        table.find_pif_by_endpoint(&IpAddress::V4(0x0A00_0001)),
        Some("h".to_string())
    );
    assert_eq!(table.find_pif_by_endpoint(&IpAddress::V4(0x0A00_0002)), None);
}

#[test]
fn pif_accessors() {
    let mut pif = Pif::new("eth0".to_string(), "red".to_string());
    pif.add_endpoint(v4(0x0A00_0000, 8));
    pif.add_ip(v4(0xAC10_0000, 12));
    assert_eq!(pif.name().as_str(), "eth0");
    assert_eq!(pif.vpc().as_str(), "red");
    assert_eq!(pif.endpoints().len(), 1);
    assert_eq!(pif.endpoints()[0], v4(0x0A00_0000, 8));
    assert_eq!(pif.iter_ips().len(), 1);
    assert_eq!(pif.iter_ips()[0], v4(0xAC10_0000, 12));
}

#[test]
fn vpc_accessors() {
    let vpc = Vpc::new("red".to_string(), Vni::new(42));
    assert_eq!(vpc.name().as_str(), "red");
    assert_eq!(vpc.vni(), Vni::new(42));
    assert_eq!(vpc.vni().as_u32(), 42);
    assert_eq!(vpc.table().records().len(), 0);
}

#[test]
fn prefix_validity() {
    assert!(v4(0x0A00_0000, 8).is_valid());
    assert!(v4(0, 0).is_valid());
    assert!(v4(0xFFFF_FFFF, 32).is_valid());
    assert!(!v4(0x0A00_0001, 8).is_valid());
    assert!(!v4(0, 33).is_valid());
    assert!(v6(0, 0).is_valid());
    assert!(v6(u128::MAX, 128).is_valid());
    assert!(!v6(1, 64).is_valid());
    assert!(!v6(0, 129).is_valid());
}
