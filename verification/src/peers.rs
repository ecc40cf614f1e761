//! Raw peer entries as they appear in a chain document, the two peer
//! list kinds, and the probe-facing peer operations: listing entries,
//! inserting a single peer, listing current probe targets, and writing a
//! probe verdict back.
use vstd::prelude::*;

use crate::db_endpoint::{EndpointKind, EndpointRowView};
use crate::store::{
    chain_id_at, endpoint_id_at, has_chain_id, has_endpoint_id, spec_upsert_endpoint, Registry,
    RegistryView, StoreError,
};
use crate::text::str_eq;

verus! {

/// One element of a chain document's `peers.seeds` or
/// `peers.persistent_peers` array. Every field may be absent.
#[derive(Debug, Clone)]
pub struct RawPeer {
    pub node_id: Option<String>,
    pub address: Option<String>,
    pub provider: Option<String>,
}

/// The mathematical value of a [`RawPeer`].
#[verifier::ext_equal]
pub struct RawPeerView {
    pub node_id: Option<Seq<char>>,
    pub address: Option<Seq<char>>,
    pub provider: Option<Seq<char>>,
}

impl View for RawPeer {
    type V = RawPeerView;

    open spec fn view(&self) -> RawPeerView {
        RawPeerView {
            node_id: self.node_id.deep_view(),
            address: self.address.deep_view(),
            provider: self.provider.deep_view(),
        }
    }
}

impl DeepView for RawPeer {
    type V = RawPeerView;

    open spec fn deep_view(&self) -> RawPeerView {
        self.view()
    }
}

/// The canonical address derived from a node identifier and a bare
/// host:port address: the two joined by a single `@`.
pub open spec fn spec_derive_address(node_id: Seq<char>, address: Seq<char>) -> Seq<char> {
    node_id + seq!['@'] + address
}

/// Derives the canonical `node_id@host:port` address. The result is a
/// function of the two inputs alone.
pub fn derive_address(node_id: &str, address: &str) -> (r: String)
    ensures
        r@ == spec_derive_address(node_id@, address@),
{
    let mut s = node_id.to_owned();
    s.append("@");
    s.append(address);
    proof {
        reveal_strlit("@");
        assert("@"@ =~= seq!['@']);
        assert(s@ =~= node_id@ + seq!['@'] + address@);
    }
    s
}

/// The provider label to store for an entry: the one given, or the fixed
/// label for entries that name none.
pub open spec fn spec_provider_or_unknown(provider: Option<Seq<char>>) -> Seq<char> {
    match provider {
        Some(p) => p,
        None => "Unknown"@,
    }
}

/// Resolves an entry's provider label, defaulting to "Unknown".
pub fn provider_or_unknown(provider: &Option<String>) -> (r: String)
    ensures
        r@ == spec_provider_or_unknown(provider.deep_view()),
{
    match provider {
        Some(p) => p.clone(),
        None => "Unknown".to_owned(),
    }
}

/// An exact copy of an optional string.
fn clone_opt_string(o: &Option<String>) -> (r: Option<String>)
    ensures
        r.deep_view() == o.deep_view(),
{
    match o {
        Some(s) => Some(s.clone()),
        None => None,
    }
}

impl RawPeer {
    /// An exact copy of this entry.
    pub fn duplicate(&self) -> (r: RawPeer)
        ensures
            r@ == self@,
    {
        RawPeer {
            node_id: clone_opt_string(&self.node_id),
            address: clone_opt_string(&self.address),
            provider: clone_opt_string(&self.provider),
        }
    }
}

/// An exact copy of a peer entry vector.
pub fn duplicate_entries(v: &Vec<RawPeer>) -> (r: Vec<RawPeer>)
    ensures
        r.deep_view() == v.deep_view(),
{
    let mut out: Vec<RawPeer> = Vec::new();
    let mut i: usize = 0;
    while i < v.len()
        invariant
            i <= v@.len(),
            out@.len() == i,
            forall|j: int| 0 <= j < i ==> (#[trigger] out@[j]).deep_view() == v.deep_view()[j],
        decreases v@.len() - i,
    {
        let d = v[i].duplicate();
        out.push(d);
        i = i + 1;
    }
    proof {
        assert forall|j: int| 0 <= j < out.deep_view().len() implies out.deep_view()[j]
            == v.deep_view()[j] by {
            assert(out@[j].deep_view() == v.deep_view()[j]);
        }
        assert(out.deep_view() =~= v.deep_view());
    }
    out
}

/// Which of the two peer arrays of a chain document a peer came from.
#[derive(Debug, Clone, Copy, PartialEq, Eq, Structural)]
pub enum PeerType {
    Seed,
    Persistent,
}

impl PeerType {
    /// The field of the document's `peers` object that holds this list.
    pub fn as_field(&self) -> (r: &'static str)
        ensures
            self is Seed ==> r@ == "seeds"@,
            self is Persistent ==> r@ == "persistent_peers"@,
    {
        match self {
            PeerType::Seed => "seeds",
            PeerType::Persistent => "persistent_peers",
        }
    }

    /// The fixed string stored for this peer list kind.
    pub fn as_str(&self) -> (r: &'static str)
        ensures
            self is Seed ==> r@ == "seed"@,
            self is Persistent ==> r@ == "persistent"@,
    {
        match self {
            PeerType::Seed => "seed",
            PeerType::Persistent => "persistent",
        }
    }

    /// The endpoint kind under which peers of this list are stored.
    pub open spec fn kind_spec(&self) -> EndpointKind {
        match self {
            PeerType::Seed => EndpointKind::Seed,
            PeerType::Persistent => EndpointKind::Peer,
        }
    }

    /// The endpoint kind under which peers of this list are stored.
    #[verifier::when_used_as_spec(kind_spec)]
    pub fn as_kind(&self) -> (r: EndpointKind)
        ensures
            r == self.kind_spec(),
    {
        match self {
            PeerType::Seed => EndpointKind::Seed,
            PeerType::Persistent => EndpointKind::Peer,
        }
    }
}

/// One probe target: an endpoint row's identifier and canonical address.
#[derive(Debug, Clone)]
pub struct Peer {
    pub id: u64,
    pub address: String,
}

/// The mathematical value of a probe target.
#[verifier::ext_equal]
pub struct PeerTargetView {
    pub id: u64,
    pub address: Seq<char>,
}

impl View for Peer {
    type V = PeerTargetView;

    open spec fn view(&self) -> PeerTargetView {
        PeerTargetView { id: self.id, address: self.address@ }
    }
}

impl DeepView for Peer {
    type V = PeerTargetView;

    open spec fn deep_view(&self) -> PeerTargetView {
        self.view()
    }
}

/// The peer entries of one list of a chain's stored document, exactly as
/// stored: nothing is filtered or rewritten. A missing chain row yields
/// nothing.
pub open spec fn spec_find_peers(s: RegistryView, chain_id: u64, t: PeerType) -> Seq<RawPeerView> {
    if has_chain_id(s.chains, chain_id) {
        crate::db_peer::doc_entries(
            s.chains[chain_id_at(s.chains, chain_id)].chain_data,
            t.kind_spec(),
        )
    } else {
        Seq::empty()
    }
}

/// Reads the peer entries of one list of a chain's stored document.
pub fn find_peers(reg: &Registry, chain_id: u64, peer_type: PeerType) -> (r: Vec<RawPeer>)
    requires
        reg@.wf(),
    ensures
        r.deep_view() == spec_find_peers(reg@, chain_id, peer_type),
{
    let idx = match crate::db_peer::find_chain_by_id(reg, chain_id) {
        Some(i) => i,
        None => {
            return Vec::new();
        },
    };
    proof {
        let k = chain_id_at(reg@.chains, chain_id);
        assert(reg@.chains[k].id == chain_id);
        if (idx as int) < k {
            assert(false);
        } else if k < (idx as int) {
            assert(false);
        }
    }
    match peer_type {
        PeerType::Persistent => duplicate_entries(&reg.chains[idx].chain_data.persistent_peers),
        PeerType::Seed => duplicate_entries(&reg.chains[idx].chain_data.seeds),
    }
}

/// The store after inserting one peer entry for a chain: its endpoint row
/// is upserted under the list's kind and linked to the chain.
pub open spec fn spec_insert_peer(
    s: RegistryView,
    chain_id: u64,
    t: PeerType,
    p: RawPeerView,
    now: u64,
) -> RegistryView {
    match (p.node_id, p.address) {
        (Some(nid), Some(ad)) => {
            let r1 = spec_upsert_endpoint(
                s,
                spec_derive_address(nid, ad),
                spec_provider_or_unknown(p.provider),
                t.kind_spec(),
                now,
            );
            crate::db_peer::spec_join(r1.0, chain_id, seq![r1.1])
        },
        _ => s,
    }
}

/// Inserts one peer entry for a chain. An entry missing its node
/// identifier or address is rejected; so is a chain that does not exist.
/// Otherwise the entry's endpoint row is upserted and linked to the chain.
pub fn insert_peer(
    reg: &mut Registry,
    chain_id: u64,
    peer_type: PeerType,
    peer: RawPeer,
    now: u64,
) -> (r: Result<(), StoreError>)
    requires
        old(reg)@.wf(),
        old(reg).next_endpoint_id < u64::MAX,
    ensures
        final(reg)@.wf(),
        r is Err <==> (peer@.node_id is None || peer@.address is None || !has_chain_id(
            old(reg)@.chains,
            chain_id,
        )),
        (peer@.node_id is None || peer@.address is None) ==> r == Err::<(), StoreError>(
            StoreError::InvalidInput,
        ) && final(reg)@ == old(reg)@,
        (peer@.node_id is Some && peer@.address is Some && !has_chain_id(
            old(reg)@.chains,
            chain_id,
        )) ==> r == Err::<(), StoreError>(StoreError::ForeignKeyViolation) && final(reg)@ == old(
            reg,
        )@,
        r is Ok ==> final(reg)@ == spec_insert_peer(old(reg)@, chain_id, peer_type, peer@, now),
{
    let RawPeer { node_id, address, provider } = peer;
    let (node_id, address) = match (node_id, address) {
        (Some(n), Some(a)) => (n, a),
        _ => {
            return Err(StoreError::InvalidInput);
        },
    };
    if crate::db_peer::find_chain_by_id(reg, chain_id).is_none() {
        return Err(StoreError::ForeignKeyViolation);
    }
    let addr = derive_address(node_id.as_str(), address.as_str());
    let prov = provider_or_unknown(&provider);
    let ghost pre = reg@;
    let id = reg.upsert_endpoint(addr, prov, peer_type.as_kind(), now);
    let ids = vec![id];
    proof {
        assert(ids@ =~= seq![id]);
        assert(reg@.chains == pre.chains);
    }
    let joined = crate::db_peer::join_chain_to_endpoints(reg, &chain_id, &ids);
    proof {
        assert(joined is Ok);
    }
    Ok(())
}

/// Whether the endpoint row with the given identifier belongs to some
/// chain row carrying the given commit.
pub open spec fn endpoint_on_commit(s: RegistryView, endpoint_id: u64, tc: Seq<char>) -> bool {
    exists|i: int|
        0 <= i < s.chains.len() && (#[trigger] s.chains[i]).commit == tc && crate::store::has_link(
            s.links,
            s.chains[i].id,
            endpoint_id,
        )
}

/// The probe targets among the first `n` endpoint rows that belong to a
/// chain of the given commit, in endpoint table order.
pub open spec fn probe_targets_prefix(s: RegistryView, tc: Seq<char>, n: int) -> Seq<
    PeerTargetView,
>
    decreases n,
{
    if n <= 0 {
        Seq::empty()
    } else {
        let rest = probe_targets_prefix(s, tc, n - 1);
        let e = s.endpoints[n - 1];
        if endpoint_on_commit(s, e.id, tc) {
            rest.push(PeerTargetView { id: e.id, address: e.address })
        } else {
            rest
        }
    }
}

/// Whether the endpoint row with the given identifier belongs to some
/// chain row carrying the given commit.
fn on_commit(reg: &Registry, tc: &str, endpoint_id: u64) -> (r: bool)
    ensures
        r == endpoint_on_commit(reg@, endpoint_id, tc@),
{
    let mut i: usize = 0;
    while i < reg.chains.len()
        invariant
            i <= reg@.chains.len(),
            reg@.chains.len() == reg.chains.len(),
            forall|j: int|
                0 <= j < i ==> !((#[trigger] reg@.chains[j]).commit == tc@
                    && crate::store::has_link(reg@.links, reg@.chains[j].id, endpoint_id)),
        decreases reg@.chains.len() - i,
    {
        if str_eq(reg.chains[i].commit.as_str(), tc) && crate::db_peer::link_exists(
            reg,
            reg.chains[i].id,
            endpoint_id,
        ) {
            proof {
                assert((#[trigger] reg@.chains[i as int]).commit == tc@
                    && crate::store::has_link(reg@.links, reg@.chains[i as int].id, endpoint_id));
            }
            return true;
        }
        i = i + 1;
    }
    false
}

/// The probe targets of the single most recently seen commit: every
/// endpoint row associated with a chain row of that commit, in endpoint
/// table order. An empty chain table yields no targets.
pub fn recent_peers(reg: &Registry) -> (r: Vec<Peer>)
    ensures
        reg@.chains.len() == 0 ==> r@.len() == 0,
        reg@.chains.len() > 0 ==> (exists|i: int|
            0 <= i < reg@.chains.len() && r.deep_view() == probe_targets_prefix(
                reg@,
                (#[trigger] reg@.chains[i]).commit,
                reg@.endpoints.len() as int,
            ) && (forall|j: int|
                0 <= j < reg@.chains.len() ==> (#[trigger] reg@.chains[j]).created_at
                    <= reg@.chains[i].created_at)),
{
    let mut best: Option<usize> = None;
    let mut i: usize = 0;
    while i < reg.chains.len()
        invariant
            i <= reg@.chains.len(),
            reg@.chains.len() == reg.chains.len(),
            match best {
                Some(b) => b < i && (forall|j: int|
                    0 <= j < i ==> (#[trigger] reg@.chains[j]).created_at
                        <= reg@.chains[b as int].created_at),
                None => i == 0,
            },
        decreases reg@.chains.len() - i,
    {
        best = match best {
            Some(b) => if reg.chains[i].created_at > reg.chains[b].created_at {
                Some(i)
            } else {
                Some(b)
            },
            None => Some(i),
        };
        i = i + 1;
    }
    let b = match best {
        Some(b) => b,
        None => {
            return Vec::new();
        },
    };
    let mut out: Vec<Peer> = Vec::new();
    let mut x: usize = 0;
    let ghost tc = reg@.chains[b as int].commit;
    while x < reg.endpoints.len()
        invariant
            x <= reg@.endpoints.len(),
            reg@.endpoints.len() == reg.endpoints.len(),
            b < reg@.chains.len(),
            tc == reg@.chains[b as int].commit,
            out@.len() == probe_targets_prefix(reg@, tc, x as int).len(),
            forall|y: int|
                0 <= y < out@.len() ==> (#[trigger] out@[y]).deep_view() == probe_targets_prefix(
                    reg@,
                    tc,
                    x as int,
                )[y],
        decreases reg@.endpoints.len() - x,
    {
        let e = &reg.endpoints[x];
        if on_commit(reg, reg.chains[b].commit.as_str(), e.id) {
            out.push(Peer { id: e.id, address: e.address.clone() });
        }
        x = x + 1;
    }
    proof {
        let fin = probe_targets_prefix(reg@, tc, reg@.endpoints.len() as int);
        assert forall|y: int| 0 <= y < out.deep_view().len() implies out.deep_view()[y]
            == fin[y] by {
            assert(out@[y].deep_view() == fin[y]);
        }
        assert(out.deep_view() =~= fin);
    }
    out
}

/// The store after recording a probe verdict for an endpoint: its liveness
/// flag is overwritten with the verdict and its probe timestamp refreshed;
/// everything else, and every other row, stays as it was. An identifier
/// naming no endpoint row changes nothing.
pub open spec fn spec_update_liveness(
    s: RegistryView,
    id: u64,
    alive: bool,
    now: u64,
) -> RegistryView {
    if has_endpoint_id(s.endpoints, id) {
        let i = endpoint_id_at(s.endpoints, id);
        RegistryView {
            endpoints: s.endpoints.update(
                i,
                EndpointRowView { is_alive: alive, updated_at: now, ..s.endpoints[i] },
            ),
            ..s
        }
    } else {
        s
    }
}

/// Records a probe verdict for a probe target's endpoint row: dead after a
/// failed probe, alive again after a successful one.
pub fn update_liveness(reg: &mut Registry, peer: &Peer, alive: bool, now: u64)
    requires
        old(reg)@.wf(),
    ensures
        final(reg)@.wf(),
        final(reg)@ == spec_update_liveness(old(reg)@, peer.id, alive, now),
{
    let ghost pre = reg@;
    let idx = match crate::db_peer::find_endpoint_by_id(reg, peer.id) {
        Some(i) => i,
        None => {
            return ;
        },
    };
    proof {
        let k = endpoint_id_at(reg@.endpoints, peer.id);
        assert(reg@.endpoints[k].id == peer.id);
        if (idx as int) < k {
            assert(false);
        } else if k < (idx as int) {
            assert(false);
        }
    }
    let row = crate::db_endpoint::Endpoint {
        id: reg.endpoints[idx].id,
        address: reg.endpoints[idx].address.clone(),
        provider: reg.endpoints[idx].provider.clone(),
        kind: reg.endpoints[idx].kind,
        is_alive: alive,
        created_at: reg.endpoints[idx].created_at,
        updated_at: now,
    };
    reg.endpoints.set(idx, row);
    proof {
        assert(reg@.endpoints =~= pre.endpoints.update(
            idx as int,
            EndpointRowView { is_alive: alive, updated_at: now, ..pre.endpoints[idx as int] },
        ));
        assert(reg@ =~= spec_update_liveness(pre, peer.id, alive, now));
        crate::store::lemma_links_ok_same_ids(pre, reg@);
        assert(reg@.wf());
    }
}

} // verus!
