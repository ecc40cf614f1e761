use chain_registry::db_chain::insert_chain;
use chain_registry::db_chain::Network;
use chain_registry::db_endpoint::EndpointKind;
use chain_registry::db_peer::{insert_persistent_peers, insert_seeds, join_chain_to_endpoints};
use chain_registry::store::Registry;

// A chain document with seven seeds and three persistent peers, the shape
// the peer insertion tests work against.
fn chain_doc_text() -> String {
    let mut seeds = Vec::new();
    for i in 1..=7 {
        seeds.push(format!(
            r#"{{"id":"seed{i}","address":"host{i}:26656","provider":"Company{i}"}}"#
        ));
    }
    let mut persistent = Vec::new();
    for i in 1..=3 {
        persistent.push(format!(r#"{{"id":"peer{i}","address":"peer{i}.example:26656"}}"#));
    }
    format!(
        r#"{{"chain_id":"cosmoshub-4","peers":{{"seeds":[{}],"persistent_peers":[{}]}}}}"#,
        seeds.join(","),
        persistent.join(",")
    )
}

fn chains_fixture() -> (Registry, u64) {
    let mut reg = Registry::new();
    let id = insert_chain(
        &mut reg,
        "cosmoshub",
        Network::Mainnet,
        "stubcommit",
        chain_doc_text().as_str(),
        None,
        10,
    )
    .unwrap();
    (reg, id)
}

#[test]
fn test_insert_persistent_peers() {
    let (mut reg, chain_id) = chains_fixture();

    let ids = insert_persistent_peers(&mut reg, &chain_id, 11);
    assert_eq!(ids.len(), 3);

    let first = reg.endpoints.iter().find(|e| e.id == ids[0]).unwrap();
    assert_eq!(first.kind, EndpointKind::Peer);

    // Re-inserting conflicts on (address, kind) and returns the same rows.
    let next_ids = insert_persistent_peers(&mut reg, &chain_id, 12);
    assert_eq!(ids, next_ids);

    join_chain_to_endpoints(&mut reg, &chain_id, &ids).unwrap();

    let join_ids: Vec<u64> = reg
        .links
        .iter()
        .filter(|l| l.chain_id == chain_id)
        .map(|l| l.endpoint_id)
        .collect();
    assert_eq!(join_ids.len(), 3);
    assert_eq!(ids, join_ids);
}

#[test]
fn test_insert_seeds() {
    let (mut reg, chain_id) = chains_fixture();

    let ids = insert_seeds(&mut reg, &chain_id, 11);
    assert_eq!(ids.len(), 7);

    let first = reg.endpoints.iter().find(|e| e.id == ids[0]).unwrap();
    assert_eq!(first.kind, EndpointKind::Seed);

    // Re-inserting conflicts on (address, kind) and returns the same rows.
    let next_ids = insert_seeds(&mut reg, &chain_id, 12);
    assert_eq!(ids, next_ids);

    join_chain_to_endpoints(&mut reg, &chain_id, &ids).unwrap();

    let join_ids: Vec<u64> = reg
        .links
        .iter()
        .filter(|l| l.chain_id == chain_id)
        .map(|l| l.endpoint_id)
        .collect();
    assert_eq!(join_ids.len(), 7);
    assert_eq!(ids, join_ids);
}

#[test]
fn test_chain_peers() {
    let mut reg = Registry::new();
    let text = r#"{"chain_id":"cosmoshub-4","peers":{"seeds":[{"id":"seed1","address":"localhost:26656","provider":"Company1"}],"persistent_peers":[{"id":"p1","address":"a1:26656"},{"id":"p2","address":"a2:26656"},{"id":"p3","address":"a3:26656"}]}}"#;
    let chain_id = insert_chain(&mut reg, "cosmoshub", Network::Mainnet, "stubcommit", text, None, 10)
        .unwrap();
    let pids = insert_persistent_peers(&mut reg, &chain_id, 11);
    join_chain_to_endpoints(&mut reg, &chain_id, &pids).unwrap();
    let sids = insert_seeds(&mut reg, &chain_id, 11);
    join_chain_to_endpoints(&mut reg, &chain_id, &sids).unwrap();

    let chain = chain_registry::db_chain::Chain::from_name(&reg, "cosmoshub", &Network::Mainnet)
        .unwrap();
    let peers = chain.peers(&reg);
    assert_eq!(peers.0.len(), 4);

    let seeds = peers.seeds();
    assert_eq!(seeds.len(), 1);
    assert_eq!(seeds[0].kind, EndpointKind::Seed);
    assert_eq!(seeds[0].provider, "Company1");
    assert_eq!(seeds[0].address, "seed1@localhost:26656");

    let persistent = peers.persistent();
    assert_eq!(persistent.len(), 3);
}

#[test]
fn test_provider_defaults_to_unknown() {
    let (mut reg, chain_id) = chains_fixture();
    let ids = insert_persistent_peers(&mut reg, &chain_id, 11);
    let first = reg.endpoints.iter().find(|e| e.id == ids[0]).unwrap();
    assert_eq!(first.provider, "Unknown");
    assert_eq!(first.address, "peer1@peer1.example:26656");
    assert!(first.is_alive);
}

#[test]
fn test_provider_updates_on_reimport() {
    let mut reg = Registry::new();
    let v1 = r#"{"chain_id":"x","peers":{"seeds":[{"id":"s","address":"h:1","provider":"Old"}]}}"#;
    let v2 = r#"{"chain_id":"x","peers":{"seeds":[{"id":"s","address":"h:1","provider":"New"}]}}"#;
    let id1 = insert_chain(&mut reg, "x", Network::Mainnet, "c1", v1, None, 1).unwrap();
    let s1 = insert_seeds(&mut reg, &id1, 1);
    assert_eq!(reg.endpoints[0].provider, "Old");
    let id2 = insert_chain(&mut reg, "x", Network::Mainnet, "c2", v2, None, 2).unwrap();
    let s2 = insert_seeds(&mut reg, &id2, 2);
    // Last write wins on the provider label; the row identity is stable.
    assert_eq!(s1, s2);
    assert_eq!(reg.endpoints.len(), 1);
    assert_eq!(reg.endpoints[0].provider, "New");
}
