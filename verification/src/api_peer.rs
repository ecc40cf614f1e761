//! The peer read paths served to the HTTP layer: a chain's live seeds and
//! persistent peers, and the comma-separated forms used in node
//! configuration files.
use vstd::prelude::*;

use crate::api::{from_db_error, APIError, Meta};
use crate::api_chain::{spec_parse_network, top_chain_row};
use crate::db_chain::{Chain, ChainRowView, Network};
use crate::db_endpoint::EndpointKind;
use crate::db_peer::{chain_peers_prefix, max_updated_prefix, peers_of_kind_prefix, PeerRecordView, Peers};
use crate::store::{Registry, RegistryView};

verus! {

/// Query parameters of the peer read paths.
#[derive(Debug)]
pub struct PeerParams {
    pub include_all: bool,
}

/// One peer as served to clients.
#[derive(Debug)]
pub struct Peer {
    pub address: String,
    pub last_liveness_check: u64,
    pub provider: String,
    pub is_alive: bool,
}

/// The mathematical value of a served peer.
#[verifier::ext_equal]
pub struct PeerInfoView {
    pub address: Seq<char>,
    pub last_liveness_check: u64,
    pub provider: Seq<char>,
    pub is_alive: bool,
}

impl View for Peer {
    type V = PeerInfoView;

    open spec fn view(&self) -> PeerInfoView {
        PeerInfoView {
            address: self.address@,
            last_liveness_check: self.last_liveness_check,
            provider: self.provider@,
            is_alive: self.is_alive,
        }
    }
}

impl DeepView for Peer {
    type V = PeerInfoView;

    open spec fn deep_view(&self) -> PeerInfoView {
        self.view()
    }
}

/// The served form of a stored peer record.
pub open spec fn api_peer_of(p: PeerRecordView) -> PeerInfoView {
    PeerInfoView {
        address: p.address,
        last_liveness_check: p.updated_at,
        provider: p.provider,
        is_alive: p.is_alive,
    }
}

/// A chain's served peers, split by kind.
#[derive(Debug)]
pub struct PeerResult {
    pub seeds: Vec<Peer>,
    pub persistent: Vec<Peer>,
}

/// A chain's served peers with the commit they came from.
#[derive(Debug)]
pub struct PeerList {
    pub meta: Meta,
    pub result: PeerResult,
}

/// The peers among the first `n` that are marked alive, in order.
pub open spec fn alive_prefix(ps: Seq<PeerRecordView>, n: int) -> Seq<PeerRecordView>
    decreases n,
{
    if n <= 0 {
        Seq::empty()
    } else {
        let rest = alive_prefix(ps, n - 1);
        if ps[n - 1].is_alive {
            rest.push(ps[n - 1])
        } else {
            rest
        }
    }
}

/// The peers of a chain that a request serves: all of them when asked for,
/// otherwise only those whose last probe found them alive.
pub open spec fn spec_served_peers(s: RegistryView, c: ChainRowView, include_all: bool) -> Seq<
    PeerRecordView,
> {
    let ps = chain_peers_prefix(s, c.id, s.endpoints.len() as int);
    if include_all {
        ps
    } else {
        alive_prefix(ps, ps.len() as int)
    }
}

/// The served seeds of a chain, in order.
pub open spec fn spec_seed_peers(s: RegistryView, c: ChainRowView, include_all: bool) -> Seq<
    PeerRecordView,
> {
    let served = spec_served_peers(s, c, include_all);
    peers_of_kind_prefix(served, EndpointKind::Seed, served.len() as int)
}

/// The served persistent peers of a chain, in order.
pub open spec fn spec_persistent_peers(s: RegistryView, c: ChainRowView, include_all: bool) -> Seq<
    PeerRecordView,
> {
    let served = spec_served_peers(s, c, include_all);
    peers_of_kind_prefix(served, EndpointKind::Peer, served.len() as int)
}

/// Every peer of a chain is stored as a persistent peer or a seed.
proof fn lemma_chain_peers_kinds(s: RegistryView, chain_id: u64, n: int)
    requires
        0 <= n <= s.endpoints.len(),
    ensures
        forall|x: int|
            0 <= x < chain_peers_prefix(s, chain_id, n).len() ==> ((#[trigger] chain_peers_prefix(
                s,
                chain_id,
                n,
            )[x]).kind is Peer || chain_peers_prefix(s, chain_id, n)[x].kind is Seed),
    decreases n,
{
    if n > 0 {
        lemma_chain_peers_kinds(s, chain_id, n - 1);
    }
}

/// Filtering by liveness keeps only peers of the listed kinds.
proof fn lemma_alive_kinds(ps: Seq<PeerRecordView>, n: int)
    requires
        0 <= n <= ps.len(),
        forall|x: int|
            0 <= x < ps.len() ==> ((#[trigger] ps[x]).kind is Peer || ps[x].kind is Seed),
    ensures
        forall|x: int|
            0 <= x < alive_prefix(ps, n).len() ==> ((#[trigger] alive_prefix(ps, n)[x]).kind is Peer
                || alive_prefix(ps, n)[x].kind is Seed),
    decreases n,
{
    if n > 0 {
        lemma_alive_kinds(ps, n - 1);
    }
}

/// A list holding only persistent peers and seeds splits into exactly
/// those two kinds.
proof fn lemma_kind_split(ps: Seq<PeerRecordView>, n: int)
    requires
        0 <= n <= ps.len(),
        forall|x: int|
            0 <= x < ps.len() ==> ((#[trigger] ps[x]).kind is Peer || ps[x].kind is Seed),
    ensures
        peers_of_kind_prefix(ps, EndpointKind::Seed, n).len() + peers_of_kind_prefix(
            ps,
            EndpointKind::Peer,
            n,
        ).len() == n,
    decreases n,
{
    if n > 0 {
        lemma_kind_split(ps, n - 1);
    }
}

/// Converts stored peer records to their served form, in order.
fn to_api_peers(v: Vec<crate::db_peer::Peer>) -> (r: Vec<Peer>)
    ensures
        r.deep_view().len() == v.deep_view().len(),
        forall|x: int|
            0 <= x < v.deep_view().len() ==> #[trigger] r.deep_view()[x] == api_peer_of(
                v.deep_view()[x],
            ),
{
    let mut out: Vec<Peer> = Vec::new();
    let mut i: usize = 0;
    while i < v.len()
        invariant
            i <= v@.len(),
            v.deep_view().len() == v@.len(),
            out@.len() == i,
            forall|x: int|
                0 <= x < i ==> (#[trigger] out@[x]).deep_view() == api_peer_of(v.deep_view()[x]),
        decreases v@.len() - i,
    {
        let p = &v[i];
        out.push(
            Peer {
                address: p.address.clone(),
                last_liveness_check: p.updated_at,
                provider: p.provider.clone(),
                is_alive: p.is_alive,
            },
        );
        i = i + 1;
    }
    out
}

/// Whether a request with the given parameters asked for dead peers too.
pub open spec fn spec_include_all(params: Option<PeerParams>) -> bool {
    match params {
        Some(p) => p.include_all,
        None => false,
    }
}

/// What a served peer list holds when row `i` is the chain row it was
/// built from: the commit and probe-time metadata of that row, and its
/// served peers split by kind, each in its served form.
pub open spec fn peer_list_matches(
    s: RegistryView,
    name: Seq<char>,
    net: Network,
    inc: bool,
    pl: PeerList,
    i: int,
) -> bool {
    let seeds = spec_seed_peers(s, s.chains[i], inc);
    let persistent = spec_persistent_peers(s, s.chains[i], inc);
    let all = chain_peers_prefix(s, s.chains[i].id, s.endpoints.len() as int);
    &&& top_chain_row(s.chains, name, net, i)
    &&& seeds.len() + persistent.len() > 0
    &&& pl.meta.commit@ == s.chains[i].commit
    &&& pl.meta.updated_at == (if all.len() > 0 {
        max_updated_prefix(all, all.len() as int)
    } else {
        s.chains[i].created_at as int
    })
    &&& pl.result.seeds.deep_view().len() == seeds.len()
    &&& (forall|x: int|
        0 <= x < seeds.len() ==> #[trigger] pl.result.seeds.deep_view()[x] == api_peer_of(seeds[x]))
    &&& pl.result.persistent.deep_view().len() == persistent.len()
    &&& (forall|x: int|
        0 <= x < persistent.len() ==> #[trigger] pl.result.persistent.deep_view()[x] == api_peer_of(
            persistent[x],
        ))
}

/// Serves a chain's seeds and persistent peers, split by kind and — unless
/// the request asks for all — restricted to those whose last probe found
/// them alive. An unknown network label is a bad request; an unknown chain,
/// or a filter that leaves nothing to serve, is not found.
#[verifier::rlimit(50)]
pub fn list_peers(reg: &Registry, network: &str, chain_name: &str, params: Option<PeerParams>) -> (r:
    Result<PeerList, APIError>)
    ensures
        spec_parse_network(network@) is None ==> (r matches Err(e) && e is BadRequest),
        spec_parse_network(network@) matches Some(net) && (forall|j: int|
            0 <= j < reg@.chains.len() ==> !((#[trigger] reg@.chains[j]).name == chain_name@
                && reg@.chains[j].network == net)) ==> (r matches Err(e) && e is NotFound),
        r is Ok ==> spec_parse_network(network@) is Some && (exists|i: int|
            #[trigger] peer_list_matches(
                reg@,
                chain_name@,
                spec_parse_network(network@).unwrap(),
                spec_include_all(params),
                r->Ok_0,
                i,
            )),
        spec_parse_network(network@) is Some && r is Err ==> (r matches Err(e) && e is NotFound),
        spec_parse_network(network@) is Some && (r matches Err(e) && e is NotFound) ==> ((forall|
            j: int,
        |
            0 <= j < reg@.chains.len() ==> !((#[trigger] reg@.chains[j]).name == chain_name@
                && reg@.chains[j].network == spec_parse_network(network@).unwrap())) || exists|
            i: int,
        |
            #![trigger reg@.chains[i]]
            {
                &&& top_chain_row(reg@.chains, chain_name@, spec_parse_network(network@).unwrap(), i)
                &&& spec_served_peers(reg@, reg@.chains[i], spec_include_all(params)).len() == 0
            }),
{
    let include_all = match &params {
        Some(p) => p.include_all,
        None => false,
    };
    let net = match Network::from_str(network) {
        Ok(n) => n,
        Err(msg) => {
            return Err(APIError::BadRequest(msg));
        },
    };
    let chain = match Chain::from_name(reg, chain_name, &net) {
        Ok(c) => c,
        Err(e) => {
            return Err(from_db_error(e));
        },
    };
    let peers = chain.peers(reg);
    let updated_at: u64 = match peers.max_updated_at() {
        Some(v) => v,
        None => chain.created_at,
    };
    let ghost all = chain_peers_prefix(reg@, chain@.id, reg@.endpoints.len() as int);
    let served: Peers = if include_all {
        peers
    } else {
        let mut kept: Vec<crate::db_peer::Peer> = Vec::new();
        let mut i: usize = 0;
        while i < peers.0.len()
            invariant
                i <= peers.0@.len(),
                peers.0.deep_view().len() == peers.0@.len(),
                kept@.len() == alive_prefix(peers.0.deep_view(), i as int).len(),
                forall|x: int|
                    0 <= x < kept@.len() ==> (#[trigger] kept@[x]).deep_view() == alive_prefix(
                        peers.0.deep_view(),
                        i as int,
                    )[x],
            decreases peers.0@.len() - i,
        {
            if peers.0[i].is_alive {
                kept.push(peers.0[i].duplicate());
            }
            i = i + 1;
        }
        proof {
            let fin = alive_prefix(peers.0.deep_view(), peers.0.deep_view().len() as int);
            assert forall|x: int| 0 <= x < kept.deep_view().len() implies kept.deep_view()[x]
                == fin[x] by {
                assert(kept@[x].deep_view() == fin[x]);
            }
            assert(kept.deep_view() =~= fin);
        }
        Peers(kept)
    };
    proof {
        lemma_chain_peers_kinds(reg@, chain@.id, reg@.endpoints.len() as int);
        lemma_alive_kinds(all, all.len() as int);
        lemma_kind_split(served.0.deep_view(), served.0.deep_view().len() as int);
    }
    let seeds = served.seeds();
    let persistent = served.persistent();
    if seeds.is_empty() && persistent.is_empty() {
        return Err(APIError::NotFound);
    }
    let served_list = PeerList {
        meta: Meta { commit: chain.commit, updated_at },
        result: PeerResult { seeds: to_api_peers(seeds), persistent: to_api_peers(persistent) },
    };
    proof {
        assert(spec_parse_network(network@) == Some(net));
        assert(spec_parse_network(network@).unwrap() == net);
        let i = choose|i: int|
            0 <= i < reg@.chains.len() && (#[trigger] reg@.chains[i]).name == chain_name@
                && reg@.chains[i].network == net && chain@ == reg@.chains[i];
        assert(peer_list_matches(
            reg@,
            chain_name@,
            net,
            spec_include_all(params),
            served_list,
            i,
        ));
    }
    let outcome: Result<PeerList, APIError> = Ok(served_list);
    proof {
        assert(outcome is Ok);
        assert(outcome->Ok_0 == served_list);
        assert(exists|i: int|
            peer_list_matches(
                reg@,
                chain_name@,
                spec_parse_network(network@).unwrap(),
                spec_include_all(params),
                outcome->Ok_0,
                i,
            ));
    }
    outcome
}

/// The first `n` of the given strings joined by single commas.
pub open spec fn join_commas(addrs: Seq<Seq<char>>, n: int) -> Seq<char>
    decreases n,
{
    if n <= 0 {
        Seq::empty()
    } else if n == 1 {
        addrs[0]
    } else {
        join_commas(addrs, n - 1) + ","@ + addrs[n - 1]
    }
}

/// The addresses of the given peers, in order.
pub open spec fn addresses_of(ps: Seq<PeerRecordView>) -> Seq<Seq<char>> {
    Seq::new(ps.len(), |i: int| ps[i].address)
}

/// Joins the addresses of served peers with commas.
fn join_addresses(v: &Vec<Peer>) -> (r: String)
    ensures
        r@ == join_commas(Seq::new(v.deep_view().len(), |i: int| v.deep_view()[i].address), v.deep_view().len() as int),
{
    let ghost addrs = Seq::new(v.deep_view().len(), |i: int| v.deep_view()[i].address);
    let mut s = String::new();
    let mut i: usize = 0;
    while i < v.len()
        invariant
            i <= v@.len(),
            v.deep_view().len() == v@.len(),
            addrs == Seq::new(v.deep_view().len(), |x: int| v.deep_view()[x].address),
            s@ == join_commas(addrs, i as int),
        decreases v@.len() - i,
    {
        if i > 0 {
            s.append(",");
        }
        s.append(v[i].address.as_str());
        proof {
            assert(addrs[i as int] == v@[i as int].deep_view().address);
            if i == 0 {
                assert(s@ =~= join_commas(addrs, 1));
            } else {
                assert(s@ =~= join_commas(addrs, i as int) + ","@ + addrs[i as int]);
            }
        }
        i = i + 1;
    }
    s
}

/// Serves a chain's seed addresses as one comma-separated string, under
/// the same filtering rules as the peer listing. A chain whose filter
/// leaves no seed to serve is not found, even when it still has
/// persistent peers.
pub fn seed_string(reg: &Registry, network: &str, chain_name: &str, params: Option<PeerParams>) -> (r:
    Result<String, APIError>)
    ensures
        spec_parse_network(network@) is None ==> (r matches Err(e) && e is BadRequest),
        spec_parse_network(network@) matches Some(net) && (forall|j: int|
            0 <= j < reg@.chains.len() ==> !((#[trigger] reg@.chains[j]).name == chain_name@
                && reg@.chains[j].network == net)) ==> (r matches Err(e) && e is NotFound),
        spec_parse_network(network@) is Some && r is Err ==> (r matches Err(e) && e is NotFound),
        spec_parse_network(network@) is Some && (r matches Err(e) && e is NotFound) ==> ((forall|
            j: int,
        |
            0 <= j < reg@.chains.len() ==> !((#[trigger] reg@.chains[j]).name == chain_name@
                && reg@.chains[j].network == spec_parse_network(network@).unwrap())) || exists|
            i: int,
        |
            #![trigger reg@.chains[i]]
            {
                &&& top_chain_row(reg@.chains, chain_name@, spec_parse_network(network@).unwrap(), i)
                &&& spec_seed_peers(reg@, reg@.chains[i], spec_include_all(params)).len() == 0
            }),
        r matches Ok(s) ==> (spec_parse_network(network@) matches Some(net) && exists|i: int|
            #![trigger reg@.chains[i]]
            {
                let inc = match params {
                    Some(p) => p.include_all,
                    None => false,
                };
                let seeds = spec_seed_peers(reg@, reg@.chains[i], inc);
                &&& top_chain_row(reg@.chains, chain_name@, net, i)
                &&& seeds.len() > 0
                &&& s@ == join_commas(addresses_of(seeds), seeds.len() as int)
            }),
{
    let pl = match list_peers(reg, network, chain_name, params) {
        Ok(pl) => pl,
        Err(e) => {
            return Err(e);
        },
    };
    if pl.result.seeds.len() == 0 {
        proof {
            let net = spec_parse_network(network@).unwrap();
            let inc = spec_include_all(params);
            let i = choose|i: int| peer_list_matches(reg@, chain_name@, net, inc, pl, i);
            assert(top_chain_row(reg@.chains, chain_name@, net, i) && spec_seed_peers(
                reg@,
                reg@.chains[i],
                inc,
            ).len() == 0);
        }
        return Err(APIError::NotFound);
    }
    let s = join_addresses(&pl.result.seeds);
    proof {
        let net = spec_parse_network(network@).unwrap();
        let inc = spec_include_all(params);
        let i = choose|i: int| peer_list_matches(reg@, chain_name@, net, inc, pl, i);
        let seeds = spec_seed_peers(reg@, reg@.chains[i], inc);
        let got = Seq::new(
            pl.result.seeds.deep_view().len(),
            |x: int| pl.result.seeds.deep_view()[x].address,
        );
        assert forall|x: int| 0 <= x < got.len() implies got[x] == addresses_of(seeds)[x] by {
            assert(pl.result.seeds.deep_view()[x] == api_peer_of(seeds[x]));
        }
        assert(got =~= addresses_of(seeds));
        assert(top_chain_row(reg@.chains, chain_name@, net, i) && s@ == join_commas(
            addresses_of(seeds),
            seeds.len() as int,
        ));
    }
    Ok(s)
}

/// Serves a chain's persistent peer addresses as one comma-separated
/// string, under the same filtering rules as the peer listing. A chain
/// whose filter leaves no persistent peer to serve is not found, even
/// when it still has seeds.
pub fn persistent_peer_string(
    reg: &Registry,
    network: &str,
    chain_name: &str,
    params: Option<PeerParams>,
) -> (r: Result<String, APIError>)
    ensures
        spec_parse_network(network@) is None ==> (r matches Err(e) && e is BadRequest),
        spec_parse_network(network@) matches Some(net) && (forall|j: int|
            0 <= j < reg@.chains.len() ==> !((#[trigger] reg@.chains[j]).name == chain_name@
                && reg@.chains[j].network == net)) ==> (r matches Err(e) && e is NotFound),
        spec_parse_network(network@) is Some && r is Err ==> (r matches Err(e) && e is NotFound),
        spec_parse_network(network@) is Some && (r matches Err(e) && e is NotFound) ==> ((forall|
            j: int,
        |
            0 <= j < reg@.chains.len() ==> !((#[trigger] reg@.chains[j]).name == chain_name@
                && reg@.chains[j].network == spec_parse_network(network@).unwrap())) || exists|
            i: int,
        |
            #![trigger reg@.chains[i]]
            {
                &&& top_chain_row(reg@.chains, chain_name@, spec_parse_network(network@).unwrap(), i)
                &&& spec_persistent_peers(reg@, reg@.chains[i], spec_include_all(params)).len()
                    == 0
            }),
        r matches Ok(s) ==> (spec_parse_network(network@) matches Some(net) && exists|i: int|
            #![trigger reg@.chains[i]]
            {
                let inc = match params {
                    Some(p) => p.include_all,
                    None => false,
                };
                let persistent = spec_persistent_peers(reg@, reg@.chains[i], inc);
                &&& top_chain_row(reg@.chains, chain_name@, net, i)
                &&& persistent.len() > 0
                &&& s@ == join_commas(addresses_of(persistent), persistent.len() as int)
            }),
{
    let pl = match list_peers(reg, network, chain_name, params) {
        Ok(pl) => pl,
        Err(e) => {
            return Err(e);
        },
    };
    if pl.result.persistent.len() == 0 {
        proof {
            let net = spec_parse_network(network@).unwrap();
            let inc = spec_include_all(params);
            let i = choose|i: int| peer_list_matches(reg@, chain_name@, net, inc, pl, i);
            assert(top_chain_row(reg@.chains, chain_name@, net, i) && spec_persistent_peers(
                reg@,
                reg@.chains[i],
                inc,
            ).len() == 0);
        }
        return Err(APIError::NotFound);
    }
    let s = join_addresses(&pl.result.persistent);
    proof {
        let net = spec_parse_network(network@).unwrap();
        let inc = spec_include_all(params);
        let i = choose|i: int| peer_list_matches(reg@, chain_name@, net, inc, pl, i);
        let persistent = spec_persistent_peers(reg@, reg@.chains[i], inc);
        let got = Seq::new(
            pl.result.persistent.deep_view().len(),
            |x: int| pl.result.persistent.deep_view()[x].address,
        );
        assert forall|x: int| 0 <= x < got.len() implies got[x] == addresses_of(persistent)[x] by {
            assert(pl.result.persistent.deep_view()[x] == api_peer_of(persistent[x]));
        }
        assert(got =~= addresses_of(persistent));
        assert(top_chain_row(reg@.chains, chain_name@, net, i) && s@ == join_commas(
            addresses_of(persistent),
            persistent.len() as int,
        ));
    }
    Ok(s)
}

} // verus!
