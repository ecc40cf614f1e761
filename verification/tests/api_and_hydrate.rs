use chain_registry::api::APIError;
use chain_registry::db_endpoint::EndpointKind;
use chain_registry::peers::PeerType;
use chain_registry::api_chain::{get_chain_data, list_chains};
use chain_registry::api_peer::{list_peers, seed_string, PeerParams};
use chain_registry::db_chain::Network;
use chain_registry::hydrate::{
    collect_chains, commit_is_hex, hydrate_chain_registry, ChainImport,
};
use chain_registry::json::parse_chain_doc;
use chain_registry::peers::{update_liveness, Peer};
use chain_registry::store::Registry;

fn cosmoshub_text() -> String {
    let mut seeds = Vec::new();
    for i in 1..=7 {
        seeds.push(format!(r#"{{"id":"seed{i}","address":"host{i}:26656","provider":"Company{i}"}}"#));
    }
    let mut persistent = Vec::new();
    for i in 1..=3 {
        persistent.push(format!(r#"{{"id":"peer{i}","address":"peer{i}.example:26656"}}"#));
    }
    format!(
        r#"{{"chain_id":"cosmoshub-4","peers":{{"seeds":[{}],"persistent_peers":[{}]}}}}"#,
        seeds.join(","),
        persistent.join(",")
    )
}

fn cosmoshub_import() -> ChainImport {
    ChainImport {
        name: "cosmoshub".to_string(),
        network: Network::Mainnet,
        doc: parse_chain_doc(cosmoshub_text().as_str()).unwrap(),
        asset_data: "{}".to_string(),
    }
}

#[test]
fn test_hydrate_scenario() {
    // Import a chain directory with seven seed peers and three persistent
    // peers on one commit.
    let mut reg = Registry::new();
    let batch = vec![cosmoshub_import()];
    hydrate_chain_registry(&mut reg, &batch, "abc123", 5, 100);

    assert_eq!(reg.chains.len(), 1);
    assert_eq!(reg.endpoints.len(), 10);
    assert_eq!(reg.endpoints.iter().filter(|e| e.kind == EndpointKind::Seed).count(), 7);
    assert_eq!(reg.endpoints.iter().filter(|e| e.kind == EndpointKind::Peer).count(), 3);
    assert_eq!(reg.links.len(), 10);

    // Re-import the same directory under the same commit: counts unchanged.
    let batch2 = vec![cosmoshub_import()];
    hydrate_chain_registry(&mut reg, &batch2, "abc123", 5, 200);

    assert_eq!(reg.chains.len(), 1);
    assert_eq!(reg.endpoints.len(), 10);
    assert_eq!(reg.links.len(), 10);

    // The peer listing serves all ten peers when asked to include all.
    let pl = list_peers(&reg, "mainnet", "cosmoshub", Some(PeerParams { include_all: true }))
        .unwrap();
    assert_eq!(pl.result.seeds.len(), 7);
    assert_eq!(pl.result.persistent.len(), 3);
    assert_eq!(pl.meta.commit, "abc123");
}

#[test]
fn test_retention_keeps_most_recent_commits() {
    // Commits with distinct creation times across more commits than the
    // retention width: exactly the newest ones remain.
    let mut reg = Registry::new();
    for (i, commit) in ["c1", "c2", "c3", "c4", "c5", "c6", "c7"].iter().enumerate() {
        let batch = vec![ChainImport {
            name: format!("chain{i}"),
            network: Network::Mainnet,
            doc: parse_chain_doc(r#"{"chain_id":"x-1"}"#).unwrap(),
            asset_data: "{}".to_string(),
        }];
        hydrate_chain_registry(&mut reg, &batch, commit, 5, (i + 1) as u64);
    }
    let commits: Vec<&str> = reg.chains.iter().map(|c| c.commit.as_str()).collect();
    assert_eq!(commits, vec!["c3", "c4", "c5", "c6", "c7"]);
}

#[test]
fn test_filtered_out_peers_are_not_found() {
    // A chain whose only peers are dead yields not-found by default, and
    // serves them again when asked to include all.
    let mut reg = Registry::new();
    let batch = vec![cosmoshub_import()];
    hydrate_chain_registry(&mut reg, &batch, "abc123", 5, 100);

    let all_ids: Vec<u64> = reg.endpoints.iter().map(|e| e.id).collect();
    for id in all_ids {
        let p = Peer { id, address: String::new() };
        update_liveness(&mut reg, &p, false, 101);
    }

    let r = list_peers(&reg, "mainnet", "cosmoshub", None);
    assert!(matches!(r, Err(APIError::NotFound)));

    let r = list_peers(&reg, "mainnet", "cosmoshub", Some(PeerParams { include_all: true }));
    assert!(r.is_ok());
}

#[test]
fn test_live_peers_served_by_default() {
    let mut reg = Registry::new();
    let batch = vec![cosmoshub_import()];
    hydrate_chain_registry(&mut reg, &batch, "abc123", 5, 100);

    // Mark one seed dead; the default listing drops exactly that one.
    let dead = reg.endpoints.iter().find(|e| e.address == "seed1@host1:26656").unwrap().id;
    update_liveness(&mut reg, &Peer { id: dead, address: String::new() }, false, 101);

    let pl = list_peers(&reg, "mainnet", "cosmoshub", None).unwrap();
    assert_eq!(pl.result.seeds.len(), 6);
    assert_eq!(pl.result.persistent.len(), 3);
    assert!(pl.result.seeds.iter().all(|p| p.address != "seed1@host1:26656"));
}

#[test]
fn test_seed_string_joins_addresses() {
    let mut reg = Registry::new();
    let batch = vec![ChainImport {
        name: "x".to_string(),
        network: Network::Mainnet,
        doc: parse_chain_doc(
            r#"{"chain_id":"x-1","peers":{"seeds":[{"id":"a","address":"a:1"},{"id":"b","address":"b:2"}]}}"#,
        )
        .unwrap(),
        asset_data: "{}".to_string(),
    }];
    hydrate_chain_registry(&mut reg, &batch, "c1", 5, 1);

    let s = seed_string(&reg, "mainnet", "x", Some(PeerParams { include_all: true })).unwrap();
    assert_eq!(s, "a@a:1,b@b:2");
}

#[test]
fn test_get_chain_data_round_trip() {
    let mut reg = Registry::new();
    let text = cosmoshub_text();
    let batch = vec![cosmoshub_import()];
    hydrate_chain_registry(&mut reg, &batch, "abc123", 5, 100);

    let resp = get_chain_data(&reg, "mainnet", "cosmoshub").unwrap();
    assert_eq!(resp.result, text);
    assert_eq!(resp.meta.commit, "abc123");

    let r = get_chain_data(&reg, "nonsense", "cosmoshub");
    assert!(matches!(r, Err(APIError::BadRequest(_))));

    let r = get_chain_data(&reg, "testnet", "cosmoshub");
    assert!(matches!(r, Err(APIError::NotFound)));
}

#[test]
fn test_list_chains_builds_paths() {
    let mut reg = Registry::new();
    let batch = vec![cosmoshub_import()];
    hydrate_chain_registry(&mut reg, &batch, "abc123", 5, 100);

    let cl = list_chains(&reg, "mainnet").unwrap();
    assert_eq!(cl.result.len(), 1);
    assert_eq!(cl.result[0].name, "cosmoshub");
    assert_eq!(cl.result[0].path, "/v1/mainnet/cosmoshub");
    assert_eq!(cl.meta.commit, "abc123");
}

#[test]
fn test_collect_chains_filters_reserved_names() {
    let names = vec![
        "cosmoshub".to_string(),
        "osmosis".to_string(),
        ".git".to_string(),
        ".github".to_string(),
        "_non_chain".to_string(),
        "testnets".to_string(),
        "testnetsx".to_string(),
    ];
    let found = collect_chains(names);
    // Only the entry named exactly `testnets` is reserved; a chain whose
    // name merely starts with it is kept.
    assert_eq!(
        found,
        vec!["cosmoshub".to_string(), "osmosis".to_string(), "testnetsx".to_string()]
    );
}

#[test]
fn test_list_chains_sorts_names() {
    let mut reg = Registry::new();
    let batch = vec![
        ChainImport {
            name: "osmosis".to_string(),
            network: Network::Mainnet,
            doc: parse_chain_doc(r#"{"chain_id":"osmosis-1"}"#).unwrap(),
            asset_data: "{}".to_string(),
        },
        ChainImport {
            name: "akash".to_string(),
            network: Network::Mainnet,
            doc: parse_chain_doc(r#"{"chain_id":"akash-1"}"#).unwrap(),
            asset_data: "{}".to_string(),
        },
        ChainImport {
            name: "cosmoshub".to_string(),
            network: Network::Mainnet,
            doc: parse_chain_doc(r#"{"chain_id":"cosmoshub-4"}"#).unwrap(),
            asset_data: "{}".to_string(),
        },
    ];
    hydrate_chain_registry(&mut reg, &batch, "abc123", 5, 100);

    // The listing is sorted ascending by name, not in table order.
    let list = chain_registry::db_chain::recent_chains(&reg, "mainnet").unwrap();
    assert_eq!(list.names, vec!["akash", "cosmoshub", "osmosis"]);

    let cl = list_chains(&reg, "mainnet").unwrap();
    let names: Vec<&str> = cl.result.iter().map(|it| it.name.as_str()).collect();
    assert_eq!(names, vec!["akash", "cosmoshub", "osmosis"]);
}

#[test]
fn test_seed_string_not_found_without_seeds() {
    // A chain with persistent peers but no seeds: the seed string is not
    // found, while the persistent peer string still serves.
    let mut reg = Registry::new();
    let batch = vec![ChainImport {
        name: "x".to_string(),
        network: Network::Mainnet,
        doc: parse_chain_doc(
            r#"{"chain_id":"x-1","peers":{"persistent_peers":[{"id":"p","address":"p:1"}]}}"#,
        )
        .unwrap(),
        asset_data: "{}".to_string(),
    }];
    hydrate_chain_registry(&mut reg, &batch, "c1", 5, 1);

    let r = seed_string(&reg, "mainnet", "x", Some(PeerParams { include_all: true }));
    assert!(matches!(r, Err(APIError::NotFound)));

    let r = chain_registry::api_peer::persistent_peer_string(
        &reg,
        "mainnet",
        "x",
        Some(PeerParams { include_all: true }),
    );
    assert_eq!(r.unwrap(), "p@p:1");
}

#[test]
fn test_commit_is_hex() {
    assert!(commit_is_hex("abc123DEF4567890"));
    assert!(!commit_is_hex(""));
    assert!(!commit_is_hex("stub commit"));
}

#[test]
fn test_network_from_str() {
    assert_eq!(Network::from_str("mainnet"), Ok(Network::Mainnet));
    assert_eq!(Network::from_str("MAINNET"), Ok(Network::Mainnet));
    assert_eq!(Network::from_str("Testnet"), Ok(Network::Testnet));
    assert!(Network::from_str("devnet").is_err());
    assert_eq!(Network::Mainnet.as_str(), "mainnet");
    assert_eq!(Network::Testnet.as_str(), "testnet");
}

#[test]
fn test_parse_chain_doc_counts() {
    let doc = parse_chain_doc(cosmoshub_text().as_str()).unwrap();
    assert_eq!(doc.chain_id.as_deref(), Some("cosmoshub-4"));
    assert_eq!(doc.seeds.len(), 7);
    assert_eq!(doc.persistent_peers.len(), 3);
    assert_eq!(doc.seeds[0].provider.as_deref(), Some("Company1"));
    assert_eq!(doc.persistent_peers[0].provider, None);
    assert!(parse_chain_doc("not json").is_none());
}

#[test]
fn test_endpoint_kind_fields() {
    assert_eq!(EndpointKind::Peer.as_field(), "persistent_peers");
    assert_eq!(EndpointKind::Seed.as_field(), "seeds");
    assert_eq!(EndpointKind::Rpc.as_field(), "rpc");
    assert_eq!(PeerType::Seed.as_field(), "seeds");
    assert_eq!(PeerType::Seed.as_str(), "seed");
    assert_eq!(PeerType::Persistent.as_field(), "persistent_peers");
}
