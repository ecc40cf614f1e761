//! The chain read paths served to the HTTP layer: a chain's document, its
//! asset list, and the chain listing of a network.
use vstd::prelude::*;

use crate::api::{from_db_error, APIError, APIResponse, Meta};
use crate::db_chain::{
    chain_names_prefix, recent_chains, spec_network_str, Chain, ChainRowView, Network,
};
use crate::store::Registry;
use crate::text::eq_ignore_ascii_case_seq;

verus! {

/// The network a label names, ignoring ASCII case; nothing for any other
/// label.
pub open spec fn spec_parse_network(s: Seq<char>) -> Option<Network> {
    if eq_ignore_ascii_case_seq(s, "mainnet"@) {
        Some(Network::Mainnet)
    } else if eq_ignore_ascii_case_seq(s, "testnet"@) {
        Some(Network::Testnet)
    } else {
        None
    }
}

/// Whether row `i` is a most recent row for the pair (name, network).
pub open spec fn top_chain_row(
    chains: Seq<ChainRowView>,
    name: Seq<char>,
    network: Network,
    i: int,
) -> bool {
    &&& 0 <= i < chains.len()
    &&& chains[i].name == name
    &&& chains[i].network == network
    &&& forall|j: int|
        0 <= j < chains.len() && (#[trigger] chains[j]).name == name && chains[j].network
            == network ==> chains[j].created_at <= chains[i].created_at
}

/// Serves a chain's document: the raw `chain.json` text of the most recent
/// row for (network, name), with the commit it came from. An unknown
/// network label is a bad request; an unknown chain is not found.
pub fn get_chain_data(reg: &Registry, network: &str, chain_name: &str) -> (r: Result<
    APIResponse<String>,
    APIError,
>)
    ensures
        spec_parse_network(network@) is None ==> (r matches Err(e) && e is BadRequest),
        spec_parse_network(network@) matches Some(net) && (forall|j: int|
            0 <= j < reg@.chains.len() ==> !((#[trigger] reg@.chains[j]).name == chain_name@
                && reg@.chains[j].network == net)) ==> (r matches Err(e) && e is NotFound),
        spec_parse_network(network@) is Some && r is Err ==> (r matches Err(e) && e is NotFound),
        spec_parse_network(network@) matches Some(net) && (exists|i: int|
            0 <= i < reg@.chains.len() && (#[trigger] reg@.chains[i]).name == chain_name@
                && reg@.chains[i].network == net) ==> r is Ok,
        r matches Ok(resp) ==> (spec_parse_network(network@) matches Some(net) && exists|i: int|
            top_chain_row(reg@.chains, chain_name@, net, i) && resp.result@ == (
            #[trigger] reg@.chains[i]).chain_data.raw && resp.meta.commit@ == reg@.chains[i].commit
                && resp.meta.updated_at == reg@.chains[i].created_at),
{
    let net = match Network::from_str(network) {
        Ok(n) => n,
        Err(msg) => {
            return Err(APIError::BadRequest(msg));
        },
    };
    let chain = match Chain::from_name(reg, chain_name, &net) {
        Ok(c) => c,
        Err(e) => {
            return Err(from_db_error(e));
        },
    };
    let resp = APIResponse {
        meta: Meta { commit: chain.commit, updated_at: chain.created_at },
        result: chain.chain_data.raw,
    };
    Ok(resp)
}

/// Serves a chain's asset list: the raw `assetlist.json` text of the most
/// recent row for (network, name), with the commit it came from.
pub fn get_chain_asset_list(reg: &Registry, network: &str, chain_name: &str) -> (r: Result<
    APIResponse<String>,
    APIError,
>)
    ensures
        spec_parse_network(network@) is None ==> (r matches Err(e) && e is BadRequest),
        spec_parse_network(network@) matches Some(net) && (forall|j: int|
            0 <= j < reg@.chains.len() ==> !((#[trigger] reg@.chains[j]).name == chain_name@
                && reg@.chains[j].network == net)) ==> (r matches Err(e) && e is NotFound),
        spec_parse_network(network@) is Some && r is Err ==> (r matches Err(e) && e is NotFound),
        spec_parse_network(network@) matches Some(net) && (exists|i: int|
            0 <= i < reg@.chains.len() && (#[trigger] reg@.chains[i]).name == chain_name@
                && reg@.chains[i].network == net) ==> r is Ok,
        r matches Ok(resp) ==> (spec_parse_network(network@) matches Some(net) && exists|i: int|
            top_chain_row(reg@.chains, chain_name@, net, i) && resp.result@ == (
            #[trigger] reg@.chains[i]).asset_data && resp.meta.commit@ == reg@.chains[i].commit
                && resp.meta.updated_at == reg@.chains[i].created_at),
{
    let net = match Network::from_str(network) {
        Ok(n) => n,
        Err(msg) => {
            return Err(APIError::BadRequest(msg));
        },
    };
    let chain = match Chain::from_name(reg, chain_name, &net) {
        Ok(c) => c,
        Err(e) => {
            return Err(from_db_error(e));
        },
    };
    let resp = APIResponse {
        meta: Meta { commit: chain.commit, updated_at: chain.created_at },
        result: chain.asset_data,
    };
    Ok(resp)
}

/// One entry of a network's chain listing: the chain's name and the path
/// it is served under.
#[derive(Debug)]
pub struct ChainListItem {
    pub name: String,
    pub path: String,
}

/// The mathematical value of a listing entry.
#[verifier::ext_equal]
pub struct ChainListItemView {
    pub name: Seq<char>,
    pub path: Seq<char>,
}

impl View for ChainListItem {
    type V = ChainListItemView;

    open spec fn view(&self) -> ChainListItemView {
        ChainListItemView { name: self.name@, path: self.path@ }
    }
}

impl DeepView for ChainListItem {
    type V = ChainListItemView;

    open spec fn deep_view(&self) -> ChainListItemView {
        self.view()
    }
}

/// A network's chain listing under its most recent commit.
#[derive(Debug)]
pub struct ChainList {
    pub meta: Meta,
    pub result: Vec<ChainListItem>,
}

/// The serving path of one chain of a network.
pub open spec fn spec_item_path(network: Seq<char>, name: Seq<char>) -> Seq<char> {
    "/v1/"@ + network + "/"@ + name
}

/// Builds the serving path of one chain of a network.
fn item_path(network: &str, name: &str) -> (r: String)
    ensures
        r@ == spec_item_path(network@, name@),
{
    let mut s = "/v1/".to_owned();
    s.append(network);
    s.append("/");
    s.append(name);
    s
}

/// Serves a network's chain listing: the names of the chains grouped under
/// the network's single most recent commit, sorted ascending by name, each
/// with its serving path. A network without any chain rows is not found.
pub fn list_chains(reg: &Registry, network: &str) -> (r: Result<ChainList, APIError>)
    ensures
        r matches Err(e) ==> e is NotFound && !(exists|i: int|
            0 <= i < reg@.chains.len() && spec_network_str(
                (#[trigger] reg@.chains[i]).network,
            ) == network@),
        r matches Ok(cl) ==> (exists|i: int|
            0 <= i < reg@.chains.len() && spec_network_str((#[trigger] reg@.chains[i]).network)
                == network@ && cl.meta.commit@ == reg@.chains[i].commit && cl.meta.updated_at
                == reg@.chains[i].created_at) && (forall|j: int|
            0 <= j < reg@.chains.len() && spec_network_str((#[trigger] reg@.chains[j]).network)
                == network@ ==> reg@.chains[j].created_at <= cl.meta.updated_at) && {
            let names = chain_names_prefix(
                reg@.chains,
                network@,
                cl.meta.commit@,
                reg@.chains.len() as int,
            ).sort_by(crate::text::lex_leq());
            &&& cl.result.deep_view().len() == names.len()
            &&& forall|x: int|
                0 <= x < names.len() ==> (#[trigger] cl.result.deep_view()[x]) == (ChainListItemView {
                    name: names[x],
                    path: spec_item_path(network@, names[x]),
                })
        },
{
    let list = match recent_chains(reg, network) {
        Ok(l) => l,
        Err(e) => {
            return Err(from_db_error(e));
        },
    };
    let mut items: Vec<ChainListItem> = Vec::new();
    let mut i: usize = 0;
    let ghost names = list.names.deep_view();
    while i < list.names.len()
        invariant
            i <= list.names@.len(),
            names == list.names.deep_view(),
            names.len() == list.names@.len(),
            items@.len() == i,
            forall|x: int|
                0 <= x < i ==> (#[trigger] items@[x]).deep_view() == (ChainListItemView {
                    name: names[x],
                    path: spec_item_path(network@, names[x]),
                }),
        decreases list.names@.len() - i,
    {
        let path = item_path(network, list.names[i].as_str());
        items.push(ChainListItem { name: list.names[i].clone(), path });
        i = i + 1;
    }
    let cl = ChainList {
        meta: Meta { commit: list.commit, updated_at: list.created_at },
        result: items,
    };
    Ok(cl)
}

} // verus!
