use chain_registry::db_chain::{insert_chain, recent_chains, truncate_old_chains, Chain, Network};
use chain_registry::store::Registry;

#[test]
fn test_insert_chain() {
    let mut reg = Registry::new();
    let stub_asset_data = r#"{"stub":"data"}"#;

    let id = insert_chain(
        &mut reg,
        "cosmos",
        Network::Testnet,
        "stub commit",
        r#"{"chain_id":"cosmoshub-4"}"#,
        Some(stub_asset_data),
        1,
    )
    .unwrap();

    assert_ne!(id, 0);

    let chain = &reg.chains[0];
    assert_eq!(chain.name, "cosmos");
    assert_eq!(chain.network, Network::Testnet);
    assert_eq!(chain.asset_data, stub_asset_data);
    assert_eq!(chain.commit, "stub commit");

    // Ensure we store structured documents.
    assert_eq!(chain.chain_data.chain_id.as_deref(), Some("cosmoshub-4"));

    // Ensure we don't insert duplicate chains.
    let second = insert_chain(
        &mut reg,
        "cosmos",
        Network::Testnet,
        "stub commit",
        r#"{"chain_id":"cosmoshub-4"}"#,
        Some(stub_asset_data),
        2,
    )
    .unwrap();

    assert_eq!(reg.chains.len(), 1);
    assert_eq!(second, id);
}

fn chains_fixture() -> Registry {
    let mut reg = Registry::new();
    insert_chain(
        &mut reg,
        "cosmoshub",
        Network::Mainnet,
        "stubcommit",
        r#"{"chain_id":"cosmoshub-4"}"#,
        Some(r#"{"chain_name":"cosmoshub"}"#),
        10,
    )
    .unwrap();
    reg
}

#[test]
fn test_from_name() {
    let reg = chains_fixture();

    let chain = Chain::from_name(&reg, "cosmoshub", &Network::Mainnet).unwrap();

    assert_eq!(chain.commit, "stubcommit");

    assert_eq!(chain.chain_data.chain_id.as_deref(), Some("cosmoshub-4"));
    assert_eq!(chain.chain_data.raw, r#"{"chain_id":"cosmoshub-4"}"#);

    assert_eq!(chain.asset_data, r#"{"chain_name":"cosmoshub"}"#);
}

#[test]
fn test_recent_chains() {
    let reg = chains_fixture();

    let list = recent_chains(&reg, "mainnet").unwrap();

    assert_eq!(list.commit, "stubcommit");
    assert_eq!(list.names, vec!["cosmoshub"]);
}

#[test]
fn test_truncate_old_chains() {
    let mut reg = Registry::new();
    for (i, commit) in ["commit1", "commit2", "commit3", "commit4"].iter().enumerate() {
        insert_chain(
            &mut reg,
            "cosmoshub",
            Network::Mainnet,
            commit,
            r#"{"chain_id":"cosmoshub-4"}"#,
            None,
            (i + 1) as u64,
        )
        .unwrap();
    }

    truncate_old_chains(&mut reg, 2);

    let commits: Vec<&str> = reg.chains.iter().map(|c| c.commit.as_str()).collect();
    assert_eq!(commits.len(), 2);
    assert_eq!(commits[0], "commit3");
    assert_eq!(commits[1], "commit4");
}

#[test]
fn test_recent_chains_unknown_network_not_found() {
    let reg = chains_fixture();
    assert!(recent_chains(&reg, "testnet").is_err());
}

#[test]
fn test_from_name_picks_latest_commit() {
    let mut reg = chains_fixture();
    insert_chain(
        &mut reg,
        "cosmoshub",
        Network::Mainnet,
        "newercommit",
        r#"{"chain_id":"cosmoshub-4"}"#,
        None,
        20,
    )
    .unwrap();

    let chain = Chain::from_name(&reg, "cosmoshub", &Network::Mainnet).unwrap();
    assert_eq!(chain.commit, "newercommit");

    // A missing asset list is stored as the empty object.
    assert_eq!(chain.asset_data, "{}");
}

#[test]
fn test_insert_chain_rejects_bad_json() {
    let mut reg = Registry::new();
    let r = insert_chain(
        &mut reg,
        "cosmos",
        Network::Mainnet,
        "c1",
        "not json at all",
        None,
        1,
    );
    assert_eq!(r, Err(chain_registry::db_chain::ImportError::InvalidChainJson));
    assert_eq!(reg.chains.len(), 0);

    let r = insert_chain(
        &mut reg,
        "cosmos",
        Network::Mainnet,
        "c1",
        r#"{"chain_id":"x"}"#,
        Some("also not json"),
        1,
    );
    assert_eq!(r, Err(chain_registry::db_chain::ImportError::InvalidAssetJson));
    assert_eq!(reg.chains.len(), 0);
}
