//! The endpoint side of ingestion: extracting the peer arrays of a stored
//! chain document into endpoint rows, and associating chain rows with the
//! endpoint rows discovered for them.
use vstd::prelude::*;

use crate::db_endpoint::EndpointKind;
use crate::json::ChainDocView;
use crate::peers::{
    derive_address, duplicate_entries, provider_or_unknown, spec_derive_address,
    spec_provider_or_unknown, RawPeer, RawPeerView,
};
use crate::store::{
    chain_id_at, has_chain_id, has_endpoint_id, has_link, spec_upsert_endpoint, Link, Registry,
    RegistryView, StoreError,
};

verus! {

/// The peer array of a chain document that endpoints of the given kind are
/// read from. Kinds that have no array in a chain document yield nothing.
pub open spec fn doc_entries(doc: ChainDocView, kind: EndpointKind) -> Seq<RawPeerView> {
    match kind {
        EndpointKind::Peer => doc.persistent_peers,
        EndpointKind::Seed => doc.seeds,
        _ => Seq::empty(),
    }
}

/// The peer entries that an insert for (chain, kind) works through: the
/// matching array of the chain's stored document, provided the chain row
/// exists and its document carries a `chain_id` field.
pub open spec fn chain_doc_entries(s: RegistryView, chain_id: u64, kind: EndpointKind) -> Seq<
    RawPeerView,
> {
    if has_chain_id(s.chains, chain_id) {
        let c = s.chains[chain_id_at(s.chains, chain_id)];
        if c.chain_data.chain_id is Some {
            doc_entries(c.chain_data, kind)
        } else {
            Seq::empty()
        }
    } else {
        Seq::empty()
    }
}

/// The store and the produced identifier list after upserting one endpoint
/// per entry, left to right. Entries missing their node identifier or
/// address are skipped and produce no identifier.
pub open spec fn spec_insert_entries(
    s: RegistryView,
    entries: Seq<RawPeerView>,
    kind: EndpointKind,
    now: u64,
) -> (RegistryView, Seq<u64>)
    decreases entries.len(),
{
    if entries.len() == 0 {
        (s, Seq::empty())
    } else {
        match (entries[0].node_id, entries[0].address) {
            (Some(nid), Some(ad)) => {
                let r1 = spec_upsert_endpoint(
                    s,
                    spec_derive_address(nid, ad),
                    spec_provider_or_unknown(entries[0].provider),
                    kind,
                    now,
                );
                let r2 = spec_insert_entries(r1.0, entries.skip(1), kind, now);
                (r2.0, seq![r1.1] + r2.1)
            },
            _ => spec_insert_entries(s, entries.skip(1), kind, now),
        }
    }
}

/// The store and identifier list after inserting the peers of the given
/// kind found in the given chain's stored document.
pub open spec fn spec_insert_peers(
    s: RegistryView,
    chain_id: u64,
    kind: EndpointKind,
    now: u64,
) -> (RegistryView, Seq<u64>) {
    spec_insert_entries(s, chain_doc_entries(s, chain_id, kind), kind, now)
}

/// The index of the chain row with the given row identifier, if any.
pub(crate) fn find_chain_by_id(reg: &Registry, id: u64) -> (r: Option<usize>)
    ensures
        match r {
            Some(i) => i < reg@.chains.len() && reg@.chains[i as int].id == id,
            None => !has_chain_id(reg@.chains, id),
        },
{
    let mut i: usize = 0;
    while i < reg.chains.len()
        invariant
            i <= reg@.chains.len(),
            reg@.chains.len() == reg.chains.len(),
            forall|j: int| 0 <= j < i ==> (#[trigger] reg@.chains[j]).id != id,
        decreases reg@.chains.len() - i,
    {
        if reg.chains[i].id == id {
            return Some(i);
        }
        i = i + 1;
    }
    None
}

/// Upserts one endpoint row per entry, left to right, and returns the
/// affected row identifiers in entry order.
fn insert_entries(reg: &mut Registry, entries: &Vec<RawPeer>, kind: EndpointKind, now: u64) -> (ids:
    Vec<u64>)
    requires
        old(reg)@.wf(),
        old(reg).next_endpoint_id + entries@.len() <= u64::MAX,
    ensures
        final(reg)@.wf(),
        final(reg)@ == spec_insert_entries(old(reg)@, entries.deep_view(), kind, now).0,
        ids@ == spec_insert_entries(old(reg)@, entries.deep_view(), kind, now).1,
{
    let ghost s0 = reg@;
    let ghost full = entries.deep_view();
    let mut ids: Vec<u64> = Vec::new();
    let mut i: usize = 0;
    proof {
        assert(full.skip(0) =~= full);
        assert(Seq::<u64>::empty() + spec_insert_entries(s0, full, kind, now).1
            =~= spec_insert_entries(s0, full, kind, now).1);
    }
    while i < entries.len()
        invariant
            i <= full.len(),
            entries.deep_view() == full,
            entries@.len() == full.len(),
            reg@.wf(),
            reg.next_endpoint_id + (full.len() - i) <= u64::MAX,
            spec_insert_entries(s0, full, kind, now).0 == spec_insert_entries(
                reg@,
                full.skip(i as int),
                kind,
                now,
            ).0,
            spec_insert_entries(s0, full, kind, now).1 == ids@ + spec_insert_entries(
                reg@,
                full.skip(i as int),
                kind,
                now,
            ).1,
        decreases full.len() - i,
    {
        let ghost pre = reg@;
        let ghost pre_ids = ids@;
        proof {
            assert(full.skip(i as int).len() == full.len() - i);
            assert(full.skip(i as int)[0] == full[i as int]);
            assert(full.skip(i as int).skip(1) =~= full.skip(i as int + 1));
            assert(full[i as int] == entries@[i as int].deep_view());
        }
        let e = &entries[i];
        if e.node_id.is_some() && e.address.is_some() {
            let addr = derive_address(
                e.node_id.as_ref().unwrap().as_str(),
                e.address.as_ref().unwrap().as_str(),
            );
            let prov = provider_or_unknown(&e.provider);
            let id = reg.upsert_endpoint(addr, prov, kind, now);
            ids.push(id);
            proof {
                assert(ids@ =~= pre_ids + seq![id]);
                assert(spec_insert_entries(pre, full.skip(i as int), kind, now).0
                    == spec_insert_entries(reg@, full.skip(i as int + 1), kind, now).0);
                assert(spec_insert_entries(pre, full.skip(i as int), kind, now).1 == seq![id]
                    + spec_insert_entries(reg@, full.skip(i as int + 1), kind, now).1);
                assert(pre_ids + (seq![id] + spec_insert_entries(
                    reg@,
                    full.skip(i as int + 1),
                    kind,
                    now,
                ).1) =~= ids@ + spec_insert_entries(reg@, full.skip(i as int + 1), kind, now).1);
            }
        } else {
            proof {
                assert(spec_insert_entries(pre, full.skip(i as int), kind, now)
                    == spec_insert_entries(reg@, full.skip(i as int + 1), kind, now));
            }
        }
        i = i + 1;
    }
    proof {
        assert(full.skip(full.len() as int) =~= Seq::<RawPeerView>::empty());
        assert(ids@ + Seq::<u64>::empty() =~= ids@);
    }
    ids
}

/// Upserts the peers of one kind of a chain's stored document. A missing
/// chain row, or a document without a `chain_id` field, yields no rows and
/// no identifiers.
fn insert_peers(reg: &mut Registry, chain_id: &u64, kind: EndpointKind, now: u64) -> (ids: Vec<u64>)
    requires
        old(reg)@.wf(),
        old(reg).next_endpoint_id + chain_doc_entries(old(reg)@, *chain_id, kind).len()
            <= u64::MAX,
    ensures
        final(reg)@.wf(),
        final(reg)@ == spec_insert_peers(old(reg)@, *chain_id, kind, now).0,
        ids@ == spec_insert_peers(old(reg)@, *chain_id, kind, now).1,
{
    let idx = match find_chain_by_id(reg, *chain_id) {
        Some(i) => i,
        None => {
            return Vec::new();
        },
    };
    proof {
        let k = chain_id_at(reg@.chains, *chain_id);
        assert(reg@.chains[k].id == *chain_id);
        if (idx as int) < k {
            assert(false);
        } else if k < (idx as int) {
            assert(false);
        }
    }
    if reg.chains[idx].chain_data.chain_id.is_none() {
        return Vec::new();
    }
    let entries = match kind {
        EndpointKind::Peer => duplicate_entries(&reg.chains[idx].chain_data.persistent_peers),
        EndpointKind::Seed => duplicate_entries(&reg.chains[idx].chain_data.seeds),
        _ => {
            return Vec::new();
        },
    };
    proof {
        assert(entries.deep_view() == chain_doc_entries(reg@, *chain_id, kind));
    }
    insert_entries(reg, &entries, kind, now)
}

/// Upserts a chain's persistent peers as endpoint rows of the persistent
/// peer kind and returns their row identifiers.
pub fn insert_persistent_peers(reg: &mut Registry, chain_id: &u64, now: u64) -> (ids: Vec<u64>)
    requires
        old(reg)@.wf(),
        old(reg).next_endpoint_id + chain_doc_entries(old(reg)@, *chain_id, EndpointKind::Peer).len()
            <= u64::MAX,
    ensures
        final(reg)@.wf(),
        final(reg)@ == spec_insert_peers(old(reg)@, *chain_id, EndpointKind::Peer, now).0,
        ids@ == spec_insert_peers(old(reg)@, *chain_id, EndpointKind::Peer, now).1,
{
    insert_peers(reg, chain_id, EndpointKind::Peer, now)
}

/// Upserts a chain's seeds as endpoint rows of the seed kind and returns
/// their row identifiers.
pub fn insert_seeds(reg: &mut Registry, chain_id: &u64, now: u64) -> (ids: Vec<u64>)
    requires
        old(reg)@.wf(),
        old(reg).next_endpoint_id + chain_doc_entries(old(reg)@, *chain_id, EndpointKind::Seed).len()
            <= u64::MAX,
    ensures
        final(reg)@.wf(),
        final(reg)@ == spec_insert_peers(old(reg)@, *chain_id, EndpointKind::Seed, now).0,
        ids@ == spec_insert_peers(old(reg)@, *chain_id, EndpointKind::Seed, now).1,
{
    insert_peers(reg, chain_id, EndpointKind::Seed, now)
}

/// The association table after linking a chain to each listed endpoint
/// row, left to right: identifiers that name no endpoint row and pairs
/// already present are ignored.
pub open spec fn spec_join(s: RegistryView, chain_id: u64, ids: Seq<u64>) -> RegistryView
    decreases ids.len(),
{
    if ids.len() == 0 {
        s
    } else {
        let s1 = if has_endpoint_id(s.endpoints, ids[0]) && !has_link(s.links, chain_id, ids[0]) {
            RegistryView {
                links: s.links.push(Link { chain_id, endpoint_id: ids[0] }),
                ..s
            }
        } else {
            s
        };
        spec_join(s1, chain_id, ids.skip(1))
    }
}

/// The index of the endpoint row with the given row identifier, if any.
pub(crate) fn find_endpoint_by_id(reg: &Registry, id: u64) -> (r: Option<usize>)
    ensures
        match r {
            Some(i) => i < reg@.endpoints.len() && reg@.endpoints[i as int].id == id,
            None => !has_endpoint_id(reg@.endpoints, id),
        },
{
    let mut i: usize = 0;
    while i < reg.endpoints.len()
        invariant
            i <= reg@.endpoints.len(),
            reg@.endpoints.len() == reg.endpoints.len(),
            forall|j: int| 0 <= j < i ==> (#[trigger] reg@.endpoints[j]).id != id,
        decreases reg@.endpoints.len() - i,
    {
        if reg.endpoints[i].id == id {
            return Some(i);
        }
        i = i + 1;
    }
    None
}

/// Whether the association table already holds the given pair.
pub(crate) fn link_exists(reg: &Registry, chain_id: u64, endpoint_id: u64) -> (r: bool)
    ensures
        r == has_link(reg@.links, chain_id, endpoint_id),
{
    let mut i: usize = 0;
    while i < reg.links.len()
        invariant
            i <= reg@.links.len(),
            reg@.links.len() == reg.links.len(),
            forall|j: int|
                0 <= j < i ==> #[trigger] reg@.links[j] != (Link { chain_id, endpoint_id }),
        decreases reg@.links.len() - i,
    {
        let l = &reg.links[i];
        if l.chain_id == chain_id && l.endpoint_id == endpoint_id {
            return true;
        }
        i = i + 1;
    }
    false
}

/// Links a chain row to each listed endpoint row; pairs already present
/// are silently ignored. Fails, changing nothing, when the chain row does
/// not exist.
pub fn join_chain_to_endpoints(reg: &mut Registry, chain_id: &u64, endpoint_ids: &Vec<u64>) -> (r:
    Result<(), StoreError>)
    requires
        old(reg)@.wf(),
    ensures
        final(reg)@.wf(),
        r is Ok <==> has_chain_id(old(reg)@.chains, *chain_id),
        r is Ok ==> final(reg)@ == spec_join(old(reg)@, *chain_id, endpoint_ids@),
        r is Err ==> final(reg)@ == old(reg)@ && r == Err::<(), StoreError>(
            StoreError::ForeignKeyViolation,
        ),
{
    if find_chain_by_id(reg, *chain_id).is_none() {
        return Err(StoreError::ForeignKeyViolation);
    }
    let ghost s0 = reg@;
    let ghost full = endpoint_ids@;
    let mut i: usize = 0;
    proof {
        assert(full.skip(0) =~= full);
    }
    while i < endpoint_ids.len()
        invariant
            i <= full.len(),
            endpoint_ids@ == full,
            reg@.wf(),
            has_chain_id(reg@.chains, *chain_id),
            spec_join(s0, *chain_id, full) == spec_join(reg@, *chain_id, full.skip(i as int)),
        decreases full.len() - i,
    {
        let ghost pre = reg@;
        proof {
            assert(full.skip(i as int)[0] == full[i as int]);
            assert(full.skip(i as int).skip(1) =~= full.skip(i as int + 1));
        }
        let id = endpoint_ids[i];
        if find_endpoint_by_id(reg, id).is_some() && !link_exists(reg, *chain_id, id) {
            let l = Link { chain_id: *chain_id, endpoint_id: id };
            reg.links.push(l);
            proof {
                assert(reg@ =~= RegistryView { links: pre.links.push(l), ..pre });
                assert forall|x: int, y: int|
                    0 <= x < y < reg@.links.len() implies #[trigger] reg@.links[x]
                    != #[trigger] reg@.links[y] by {
                    if y == pre.links.len() {
                        assert(!has_link(pre.links, *chain_id, id));
                        assert(reg@.links[x] == pre.links[x]);
                        if reg@.links[x] == l {
                            assert(has_link(pre.links, *chain_id, id));
                        }
                    }
                }
                assert forall|x: int| 0 <= x < reg@.links.len() implies has_chain_id(
                    reg@.chains,
                    (#[trigger] reg@.links[x]).chain_id,
                ) && has_endpoint_id(reg@.endpoints, reg@.links[x].endpoint_id) by {
                    if x < pre.links.len() {
                        assert(has_chain_id(pre.chains, pre.links[x].chain_id));
                        assert(has_endpoint_id(pre.endpoints, pre.links[x].endpoint_id));
                    }
                }
                assert(reg@.wf());
                assert(spec_join(pre, *chain_id, full.skip(i as int)) == spec_join(
                    reg@,
                    *chain_id,
                    full.skip(i as int + 1),
                ));
            }
        } else {
            proof {
                assert(spec_join(pre, *chain_id, full.skip(i as int)) == spec_join(
                    reg@,
                    *chain_id,
                    full.skip(i as int + 1),
                ));
            }
        }
        i = i + 1;
    }
    proof {
        assert(full.skip(full.len() as int) =~= Seq::<u64>::empty());
    }
    Ok(())
}

/// Linking touches only the association table.
pub proof fn lemma_join_frame(s: RegistryView, chain_id: u64, ids: Seq<u64>)
    ensures
        spec_join(s, chain_id, ids).chains == s.chains,
        spec_join(s, chain_id, ids).endpoints == s.endpoints,
        spec_join(s, chain_id, ids).next_chain_id == s.next_chain_id,
        spec_join(s, chain_id, ids).next_endpoint_id == s.next_endpoint_id,
    decreases ids.len(),
{
    if ids.len() > 0 {
        let s1 = if has_endpoint_id(s.endpoints, ids[0]) && !has_link(s.links, chain_id, ids[0]) {
            RegistryView { links: s.links.push(Link { chain_id, endpoint_id: ids[0] }), ..s }
        } else {
            s
        };
        lemma_join_frame(s1, chain_id, ids.skip(1));
    }
}

/// Upserting endpoints touches neither the chain table nor the
/// association table, and allocates at most one identifier per entry.
pub proof fn lemma_insert_entries_frame(
    s: RegistryView,
    entries: Seq<RawPeerView>,
    kind: EndpointKind,
    now: u64,
)
    requires
        s.next_endpoint_id + entries.len() <= u64::MAX,
    ensures
        spec_insert_entries(s, entries, kind, now).0.chains == s.chains,
        spec_insert_entries(s, entries, kind, now).0.links == s.links,
        spec_insert_entries(s, entries, kind, now).0.next_chain_id == s.next_chain_id,
        s.next_endpoint_id <= spec_insert_entries(s, entries, kind, now).0.next_endpoint_id
            <= s.next_endpoint_id + entries.len(),
    decreases entries.len(),
{
    if entries.len() > 0 {
        match (entries[0].node_id, entries[0].address) {
            (Some(nid), Some(ad)) => {
                let r1 = spec_upsert_endpoint(
                    s,
                    spec_derive_address(nid, ad),
                    spec_provider_or_unknown(entries[0].provider),
                    kind,
                    now,
                );
                lemma_insert_entries_frame(r1.0, entries.skip(1), kind, now);
            },
            _ => {
                lemma_insert_entries_frame(s, entries.skip(1), kind, now);
            },
        }
    }
}

/// One peer of a chain as served to clients.
#[derive(Debug)]
pub struct Peer {
    pub address: String,
    pub is_alive: bool,
    pub kind: EndpointKind,
    pub updated_at: u64,
    pub provider: String,
}

/// The mathematical value of a served [`Peer`].
#[verifier::ext_equal]
pub struct PeerRecordView {
    pub address: Seq<char>,
    pub is_alive: bool,
    pub kind: EndpointKind,
    pub updated_at: u64,
    pub provider: Seq<char>,
}

impl View for Peer {
    type V = PeerRecordView;

    open spec fn view(&self) -> PeerRecordView {
        PeerRecordView {
            address: self.address@,
            is_alive: self.is_alive,
            kind: self.kind,
            updated_at: self.updated_at,
            provider: self.provider@,
        }
    }
}

impl DeepView for Peer {
    type V = PeerRecordView;

    open spec fn deep_view(&self) -> PeerRecordView {
        self.view()
    }
}

impl Peer {
    /// An exact copy of this peer.
    pub fn duplicate(&self) -> (r: Peer)
        ensures
            r@ == self@,
    {
        Peer {
            address: self.address.clone(),
            is_alive: self.is_alive,
            kind: self.kind,
            updated_at: self.updated_at,
            provider: self.provider.clone(),
        }
    }
}

/// The served view of an endpoint row.
pub open spec fn peer_of_endpoint(e: crate::db_endpoint::EndpointRowView) -> PeerRecordView {
    PeerRecordView {
        address: e.address,
        is_alive: e.is_alive,
        kind: e.kind,
        updated_at: e.updated_at,
        provider: e.provider,
    }
}

/// The peers of a chain among the first `n` endpoint rows: the persistent
/// peer and seed rows associated with the chain, in endpoint table order.
pub open spec fn chain_peers_prefix(s: RegistryView, chain_id: u64, n: int) -> Seq<PeerRecordView>
    decreases n,
{
    if n <= 0 {
        Seq::empty()
    } else {
        let rest = chain_peers_prefix(s, chain_id, n - 1);
        let e = s.endpoints[n - 1];
        if (e.kind is Peer || e.kind is Seed) && has_link(s.links, chain_id, e.id) {
            rest.push(peer_of_endpoint(e))
        } else {
            rest
        }
    }
}

/// The peers of one chain, as read back for serving.
#[derive(Debug)]
pub struct Peers(pub Vec<Peer>);

impl crate::db_chain::Chain {
    /// The persistent peers and seeds associated with this chain, in
    /// endpoint table order.
    pub fn peers(&self, reg: &Registry) -> (r: Peers)
        ensures
            r.0.deep_view() == chain_peers_prefix(reg@, self.id, reg@.endpoints.len() as int),
    {
        let mut out: Vec<Peer> = Vec::new();
        let mut i: usize = 0;
        while i < reg.endpoints.len()
            invariant
                i <= reg@.endpoints.len(),
                reg@.endpoints.len() == reg.endpoints.len(),
                out@.len() == chain_peers_prefix(reg@, self.id, i as int).len(),
                forall|x: int|
                    0 <= x < out@.len() ==> (#[trigger] out@[x]).deep_view() == chain_peers_prefix(
                        reg@,
                        self.id,
                        i as int,
                    )[x],
            decreases reg@.endpoints.len() - i,
        {
            let e = &reg.endpoints[i];
            let kind_wanted = match e.kind {
                EndpointKind::Peer => true,
                EndpointKind::Seed => true,
                _ => false,
            };
            if kind_wanted && link_exists(reg, self.id, e.id) {
                out.push(
                    Peer {
                        address: e.address.clone(),
                        is_alive: e.is_alive,
                        kind: e.kind,
                        updated_at: e.updated_at,
                        provider: e.provider.clone(),
                    },
                );
            }
            i = i + 1;
        }
        let r = Peers(out);
        proof {
            let fin = chain_peers_prefix(reg@, self.id, reg@.endpoints.len() as int);
            assert forall|x: int| 0 <= x < r.0.deep_view().len() implies r.0.deep_view()[x]
                == fin[x] by {
                assert(r.0@[x].deep_view() == fin[x]);
            }
            assert(r.0.deep_view() =~= fin);
        }
        r
    }
}

/// The latest probe time among the first `n` peers; -1 when there is none.
pub open spec fn max_updated_prefix(ps: Seq<PeerRecordView>, n: int) -> int
    decreases n,
{
    if n <= 0 {
        -1
    } else {
        let m = max_updated_prefix(ps, n - 1);
        if ps[n - 1].updated_at as int > m {
            ps[n - 1].updated_at as int
        } else {
            m
        }
    }
}

/// The peers of one kind among the first `n`, in order.
pub open spec fn peers_of_kind_prefix(ps: Seq<PeerRecordView>, kind: EndpointKind, n: int) -> Seq<
    PeerRecordView,
>
    decreases n,
{
    if n <= 0 {
        Seq::empty()
    } else {
        let rest = peers_of_kind_prefix(ps, kind, n - 1);
        if ps[n - 1].kind == kind {
            rest.push(ps[n - 1])
        } else {
            rest
        }
    }
}

impl Peers {
    /// The time of the latest probe among these peers, if any.
    pub fn max_updated_at(&self) -> (r: Option<u64>)
        ensures
            match r {
                Some(v) => max_updated_prefix(self.0.deep_view(), self.0.deep_view().len() as int)
                    == v as int,
                None => self.0.deep_view().len() == 0,
            },
    {
        let mut m: Option<u64> = None;
        let mut i: usize = 0;
        while i < self.0.len()
            invariant
                i <= self.0@.len(),
                self.0.deep_view().len() == self.0@.len(),
                match m {
                    Some(v) => max_updated_prefix(self.0.deep_view(), i as int) == v as int,
                    None => i == 0,
                },
            decreases self.0@.len() - i,
        {
            let u = self.0[i].updated_at;
            proof {
                let ps = self.0.deep_view();
                assert(ps[i as int] == self.0@[i as int].deep_view());
                assert(ps[i as int].updated_at == u);
                assert(max_updated_prefix(ps, i as int + 1) == if ps[i as int].updated_at as int
                    > max_updated_prefix(ps, i as int) {
                    ps[i as int].updated_at as int
                } else {
                    max_updated_prefix(ps, i as int)
                });
            }
            m = match m {
                Some(v) => if u > v {
                    Some(u)
                } else {
                    Some(v)
                },
                None => Some(u),
            };
            i = i + 1;
        }
        m
    }

    /// The peers of one kind, in order.
    fn of_kind(&self, kind: EndpointKind) -> (r: Vec<Peer>)
        ensures
            r.deep_view() == peers_of_kind_prefix(
                self.0.deep_view(),
                kind,
                self.0.deep_view().len() as int,
            ),
    {
        let mut out: Vec<Peer> = Vec::new();
        let mut i: usize = 0;
        while i < self.0.len()
            invariant
                i <= self.0@.len(),
                self.0.deep_view().len() == self.0@.len(),
                out@.len() == peers_of_kind_prefix(self.0.deep_view(), kind, i as int).len(),
                forall|x: int|
                    0 <= x < out@.len() ==> (#[trigger] out@[x]).deep_view()
                        == peers_of_kind_prefix(self.0.deep_view(), kind, i as int)[x],
            decreases self.0@.len() - i,
        {
            if self.0[i].kind == kind {
                out.push(self.0[i].duplicate());
            }
            i = i + 1;
        }
        proof {
            let fin = peers_of_kind_prefix(
                self.0.deep_view(),
                kind,
                self.0.deep_view().len() as int,
            );
            assert forall|x: int| 0 <= x < out.deep_view().len() implies out.deep_view()[x]
                == fin[x] by {
                assert(out@[x].deep_view() == fin[x]);
            }
            assert(out.deep_view() =~= fin);
        }
        out
    }

    /// The persistent peers among these peers, in order.
    pub fn persistent(&self) -> (r: Vec<Peer>)
        ensures
            r.deep_view() == peers_of_kind_prefix(
                self.0.deep_view(),
                EndpointKind::Peer,
                self.0.deep_view().len() as int,
            ),
    {
        self.of_kind(EndpointKind::Peer)
    }

    /// The seeds among these peers, in order.
    pub fn seeds(&self) -> (r: Vec<Peer>)
        ensures
            r.deep_view() == peers_of_kind_prefix(
                self.0.deep_view(),
                EndpointKind::Seed,
                self.0.deep_view().len() as int,
            ),
    {
        self.of_kind(EndpointKind::Seed)
    }
}

} // verus!
