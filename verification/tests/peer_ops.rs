use chain_registry::db_chain::{insert_chain, Network};
use chain_registry::db_peer::{insert_seeds, join_chain_to_endpoints};
use chain_registry::liveness::host_port;
use chain_registry::peers::{
    derive_address, find_peers, insert_peer, recent_peers, update_liveness, Peer, PeerType, RawPeer,
};
use chain_registry::store::Registry;

fn chain_text_with_counts(seeds: usize, persistent: usize) -> String {
    let mut ss = Vec::new();
    for i in 1..=seeds {
        ss.push(format!(r#"{{"id":"seed{i}","address":"host{i}:26656"}}"#));
    }
    let mut ps = Vec::new();
    for i in 1..=persistent {
        ps.push(format!(r#"{{"id":"peer{i}","address":"peer{i}.example:26656"}}"#));
    }
    format!(
        r#"{{"chain_id":"cosmoshub-4","peers":{{"seeds":[{}],"persistent_peers":[{}]}}}}"#,
        ss.join(","),
        ps.join(",")
    )
}

#[test]
fn test_find_peers() {
    let mut reg = Registry::new();
    let chain_id = insert_chain(
        &mut reg,
        "cosmoshub",
        Network::Mainnet,
        "stubcommit",
        chain_text_with_counts(7, 3).as_str(),
        None,
        10,
    )
    .unwrap();

    let seeds = find_peers(&reg, chain_id, PeerType::Seed);
    assert_eq!(seeds.len(), 7);
    for seed in &seeds {
        assert!(seed.node_id.is_some());
        assert!(seed.address.is_some());
    }

    let peers = find_peers(&reg, chain_id, PeerType::Persistent);
    assert_eq!(peers.len(), 3);
    for peer in &peers {
        assert!(peer.node_id.is_some());
        assert!(peer.address.is_some());
    }
}

#[test]
fn test_insert_persistent_peer() {
    let mut reg = Registry::new();
    let chain_id = insert_chain(
        &mut reg,
        "cosmoshub",
        Network::Mainnet,
        "stubcommit",
        r#"{"chain_id":"cosmoshub-4"}"#,
        None,
        10,
    )
    .unwrap();

    let peer = RawPeer {
        node_id: Some("abc123".to_string()),
        address: Some("127.0.0.1:3346".to_string()),
        provider: None,
    };

    assert!(insert_peer(&mut reg, chain_id, PeerType::Persistent, peer, 11).is_ok());

    let inserted = &reg.endpoints[0];
    assert_eq!(inserted.address, "abc123@127.0.0.1:3346");
    assert_eq!(inserted.kind, PeerType::Persistent.as_kind());
    assert_eq!(PeerType::Persistent.as_str(), "persistent");
    assert!(inserted.is_alive);
    assert_eq!(reg.links.len(), 1);
    assert_eq!(reg.links[0].chain_id, chain_id);
    assert_eq!(reg.links[0].endpoint_id, inserted.id);
}

#[test]
fn test_insert_peer_missing_fields() {
    let mut reg = Registry::new();
    let chain_id = insert_chain(
        &mut reg,
        "cosmoshub",
        Network::Mainnet,
        "stubcommit",
        r#"{"chain_id":"cosmoshub-4"}"#,
        None,
        10,
    )
    .unwrap();

    let peer = RawPeer { node_id: None, address: Some("h:1".to_string()), provider: None };
    assert!(insert_peer(&mut reg, chain_id, PeerType::Seed, peer, 11).is_err());
    assert_eq!(reg.endpoints.len(), 0);
}

#[test]
fn test_recent_peers() {
    let mut reg = Registry::new();
    // An older commit with one linked endpoint.
    let old_id = insert_chain(
        &mut reg,
        "oldchain",
        Network::Mainnet,
        "oldcommit",
        chain_text_with_counts(1, 0).as_str(),
        None,
        1,
    )
    .unwrap();
    let old_seeds = insert_seeds(&mut reg, &old_id, 1);
    join_chain_to_endpoints(&mut reg, &old_id, &old_seeds).unwrap();

    // The most recent commit with two linked endpoints on one chain.
    let new_id = insert_chain(
        &mut reg,
        "newchain",
        Network::Mainnet,
        "newcommit",
        r#"{"chain_id":"new-1","peers":{"seeds":[{"id":"a","address":"a:1"},{"id":"b","address":"b:1"}]}}"#,
        None,
        2,
    )
    .unwrap();
    let new_seeds = insert_seeds(&mut reg, &new_id, 2);
    join_chain_to_endpoints(&mut reg, &new_id, &new_seeds).unwrap();

    let found = recent_peers(&reg);
    assert_eq!(found.len(), 2);
    assert!(found.iter().all(|p| p.address == "a@a:1" || p.address == "b@b:1"));
}

#[test]
fn test_update_liveness() {
    let mut reg = Registry::new();
    let chain_id = insert_chain(
        &mut reg,
        "cosmoshub",
        Network::Mainnet,
        "stubcommit",
        chain_text_with_counts(1, 0).as_str(),
        None,
        1,
    )
    .unwrap();
    let ids = insert_seeds(&mut reg, &chain_id, 1);
    let peer = Peer { id: ids[0], address: "stub@address".to_string() };

    // A probe that fails to connect marks the peer dead.
    update_liveness(&mut reg, &peer, false, 2);
    assert!(!reg.endpoints[0].is_alive);
    assert_eq!(reg.endpoints[0].updated_at, 2);

    // A later successful probe marks it alive again.
    update_liveness(&mut reg, &peer, true, 3);
    assert!(reg.endpoints[0].is_alive);
    assert_eq!(reg.endpoints[0].updated_at, 3);
}

#[test]
fn test_derive_address() {
    assert_eq!(derive_address("abc123", "127.0.0.1:3346"), "abc123@127.0.0.1:3346");
    assert_eq!(derive_address("", "h:1"), "@h:1");
    // Re-deriving from the same input always yields the same string.
    assert_eq!(derive_address("n", "a:2"), derive_address("n", "a:2"));
}

#[test]
fn test_host_port_strips_node_id() {
    assert_eq!(host_port("abcignored@127.0.0.1:433"), "127.0.0.1:433");
    assert_eq!(host_port("127.0.0.1:433"), "127.0.0.1:433");
    assert_eq!(host_port("a@b@host:1"), "host:1");
    assert_eq!(host_port("google.com:80"), "google.com:80");
}
