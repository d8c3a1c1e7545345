use ferroqueue::config::{check_args, Config};
use ferroqueue::ids::derive_id;

fn args(list: &[&str]) -> Vec<String> {
    list.iter().map(|s| s.to_string()).collect()
}

#[test]
fn defaults_describe_a_single_node() {
    let none = args(&[]);
    assert!(check_args(&none));
    let (config, unknown) = Config::from_args(&none);
    assert_eq!(config.dir, "data");
    assert_eq!(config.client_addr, "127.0.0.1:5000");
    assert_eq!(config.peer_addr, "127.0.0.1:6000");
    assert_eq!(config.members, args(&["127.0.0.1:6000"]));
    assert!(unknown.is_empty());
    assert!(config.peer_addresses().is_empty());
    assert_eq!(config.node_id(), derive_id("127.0.0.1:6000"));
    assert_eq!(config.cluster_id(), derive_id("127.0.0.1:6000"));
}

#[test]
fn flags_are_taken_in_and_the_rest_is_reported() {
    let given = args(&[
        "--dir", "d", "what", "--client", "c", "--peer", "h:2", "--join", "h:3", "--join", "h:1",
        "--join", "h:3", "--dir", "e",
    ]);
    assert!(check_args(&given));
    let (config, unknown) = Config::from_args(&given);
    assert_eq!(config.dir, "e");
    assert_eq!(config.client_addr, "c");
    assert_eq!(config.peer_addr, "h:2");
    assert_eq!(config.members, args(&["h:1", "h:2", "h:3"]), "each once, in order");
    assert_eq!(unknown, args(&["what"]));
    assert_eq!(config.cluster_id(), derive_id("h:1,h:2,h:3"));

    let peers = config.peer_addresses();
    assert_eq!(peers.len(), 2);
    assert_eq!(peers.get(&derive_id("h:1")), Some(&"http://h:1".to_string()));
    assert_eq!(peers.get(&derive_id("h:3")), Some(&"http://h:3".to_string()));
}

#[test]
fn a_value_may_look_like_a_flag() {
    let given = args(&["--dir", "--peer", "--join"]);
    assert!(!check_args(&given), "the last flag has no value");
    let given = args(&["--dir", "--peer"]);
    assert!(check_args(&given));
    let (config, _) = Config::from_args(&given);
    assert_eq!(config.dir, "--peer");
}

#[test]
fn members_are_ordered_as_texts_are() {
    let names = ["b", "a", "ab", "", "B", "\u{e9}", "\u{1f600}", "\u{ffff}", "a"];
    let mut given = args(&["--peer", "m"]);
    for name in names {
        given.push("--join".to_string());
        given.push(name.to_string());
    }
    let (config, _) = Config::from_args(&given);
    let mut expected = args(&names);
    expected.push("m".to_string());
    expected.sort();
    expected.dedup();
    assert_eq!(config.members, expected);
}

#[test]
fn members_told_of_the_same_addresses_agree() {
    let (a, _) = Config::from_args(&args(&["--peer", "x:1", "--join", "x:2", "--join", "x:3"]));
    let (b, _) = Config::from_args(&args(&["--join", "x:3", "--peer", "x:2", "--join", "x:1"]));
    assert_eq!(a.members, b.members);
    assert_eq!(a.cluster_id(), b.cluster_id());
    assert_ne!(a.node_id(), b.node_id());
    assert!(a.peer_addresses().contains_key(&b.node_id()));
    assert!(b.peer_addresses().contains_key(&a.node_id()));
}

#[test]
fn the_later_of_two_members_under_one_identifier_counts() {
    let (config, _) = Config::from_args(&args(&["--peer", "b", "--join", "a", "--join", "c"]));
    let peers = config.addresses_under(&vec![1, 2, 3]);
    assert_eq!(peers.len(), 2);
    assert_eq!(peers.get(&1), Some(&"http://a".to_string()));
    assert_eq!(peers.get(&3), Some(&"http://c".to_string()));
    let peers = config.addresses_under(&vec![1, 2, 1]);
    assert_eq!(peers.len(), 1);
    assert_eq!(peers.get(&1), Some(&"http://c".to_string()));
}
