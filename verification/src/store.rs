//! The in-memory registry store: three tables — chains, endpoints, and the
//! chain/endpoint association — with the upsert operations that the
//! ingestion pipeline is built on. Every operation's effect is stated
//! exactly as a function of the store's mathematical view.
use vstd::prelude::*;

use crate::db_chain::{Chain, ChainRowView, Network};
use crate::db_endpoint::{Endpoint, EndpointKind, EndpointRowView};
use crate::json::{ChainDoc, ChainDocView};
use crate::text::str_eq;

verus! {

/// Why a store operation could not be carried out.
#[derive(Debug, Clone, Copy, PartialEq, Eq, Structural)]
pub enum StoreError {
    /// A lookup that must return a row found none.
    RowNotFound,
    /// A write referenced a row that does not exist.
    ForeignKeyViolation,
    /// A value handed in was missing a required part.
    InvalidInput,
}

/// One row of the chain/endpoint association table: an unordered unique
/// pair of row identifiers.
#[derive(Debug, Clone, Copy, PartialEq, Eq, Structural)]
pub struct Link {
    pub chain_id: u64,
    pub endpoint_id: u64,
}

/// The in-memory registry store.
#[derive(Debug)]
pub struct Registry {
    pub chains: Vec<Chain>,
    pub endpoints: Vec<Endpoint>,
    pub links: Vec<Link>,
    pub next_chain_id: u64,
    pub next_endpoint_id: u64,
}

/// The mathematical value of the whole store.
#[verifier::ext_equal]
pub struct RegistryView {
    pub chains: Seq<ChainRowView>,
    pub endpoints: Seq<EndpointRowView>,
    pub links: Seq<Link>,
    pub next_chain_id: u64,
    pub next_endpoint_id: u64,
}

impl View for Registry {
    type V = RegistryView;

    open spec fn view(&self) -> RegistryView {
        RegistryView {
            chains: self.chains.deep_view(),
            endpoints: self.endpoints.deep_view(),
            links: self.links@,
            next_chain_id: self.next_chain_id,
            next_endpoint_id: self.next_endpoint_id,
        }
    }
}

/// Whether a chain row carries the given natural key.
pub open spec fn chain_key_matches(
    c: ChainRowView,
    name: Seq<char>,
    network: Network,
    commit: Seq<char>,
) -> bool {
    c.name == name && c.network == network && c.commit == commit
}

/// Whether some chain row carries the given natural key.
pub open spec fn has_chain_key(
    chains: Seq<ChainRowView>,
    name: Seq<char>,
    network: Network,
    commit: Seq<char>,
) -> bool {
    exists|i: int|
        0 <= i < chains.len() && chain_key_matches(#[trigger] chains[i], name, network, commit)
}

/// The index of the chain row carrying the given natural key.
pub open spec fn chain_key_at(
    chains: Seq<ChainRowView>,
    name: Seq<char>,
    network: Network,
    commit: Seq<char>,
) -> int {
    choose|i: int|
        0 <= i < chains.len() && chain_key_matches(#[trigger] chains[i], name, network, commit)
}

/// Whether some chain row has the given row identifier.
pub open spec fn has_chain_id(chains: Seq<ChainRowView>, id: u64) -> bool {
    exists|i: int| 0 <= i < chains.len() && (#[trigger] chains[i]).id == id
}

/// The index of the chain row with the given row identifier.
pub open spec fn chain_id_at(chains: Seq<ChainRowView>, id: u64) -> int {
    choose|i: int| 0 <= i < chains.len() && (#[trigger] chains[i]).id == id
}

/// Whether an endpoint row carries the given natural key.
pub open spec fn endpoint_key_matches(
    e: EndpointRowView,
    address: Seq<char>,
    kind: EndpointKind,
) -> bool {
    e.address == address && e.kind == kind
}

/// Whether some endpoint row carries the given natural key.
pub open spec fn has_endpoint_key(
    endpoints: Seq<EndpointRowView>,
    address: Seq<char>,
    kind: EndpointKind,
) -> bool {
    exists|i: int|
        0 <= i < endpoints.len() && endpoint_key_matches(#[trigger] endpoints[i], address, kind)
}

/// The index of the endpoint row carrying the given natural key.
pub open spec fn endpoint_key_at(
    endpoints: Seq<EndpointRowView>,
    address: Seq<char>,
    kind: EndpointKind,
) -> int {
    choose|i: int|
        0 <= i < endpoints.len() && endpoint_key_matches(#[trigger] endpoints[i], address, kind)
}

/// Whether some endpoint row has the given row identifier.
pub open spec fn has_endpoint_id(endpoints: Seq<EndpointRowView>, id: u64) -> bool {
    exists|i: int| 0 <= i < endpoints.len() && (#[trigger] endpoints[i]).id == id
}

/// The index of the endpoint row with the given row identifier.
pub open spec fn endpoint_id_at(endpoints: Seq<EndpointRowView>, id: u64) -> int {
    choose|i: int| 0 <= i < endpoints.len() && (#[trigger] endpoints[i]).id == id
}

/// Whether the association table holds the given pair.
pub open spec fn has_link(links: Seq<Link>, chain_id: u64, endpoint_id: u64) -> bool {
    exists|i: int|
        0 <= i < links.len() && #[trigger] links[i] == (Link { chain_id, endpoint_id })
}

impl RegistryView {
    /// Row identifiers are positive, below the allocation counters, and
    /// unique within each table.
    pub open spec fn ids_ok(self) -> bool {
        &&& 1 <= self.next_chain_id
        &&& 1 <= self.next_endpoint_id
        &&& forall|i: int|
            0 <= i < self.chains.len() ==> 1 <= (#[trigger] self.chains[i]).id
                < self.next_chain_id
        &&& forall|i: int, j: int|
            0 <= i < j < self.chains.len() ==> (#[trigger] self.chains[i]).id != (
            #[trigger] self.chains[j]).id
        &&& forall|i: int|
            0 <= i < self.endpoints.len() ==> 1 <= (#[trigger] self.endpoints[i]).id
                < self.next_endpoint_id
        &&& forall|i: int, j: int|
            0 <= i < j < self.endpoints.len() ==> (#[trigger] self.endpoints[i]).id != (
            #[trigger] self.endpoints[j]).id
    }

    /// Natural keys are unique: one row per (name, network, commit) and one
    /// per (address, kind).
    pub open spec fn keys_ok(self) -> bool {
        &&& forall|i: int, j: int|
            0 <= i < j < self.chains.len() ==> !chain_key_matches(
                #[trigger] self.chains[i],
                (#[trigger] self.chains[j]).name,
                self.chains[j].network,
                self.chains[j].commit,
            )
        &&& forall|i: int, j: int|
            0 <= i < j < self.endpoints.len() ==> !endpoint_key_matches(
                #[trigger] self.endpoints[i],
                (#[trigger] self.endpoints[j]).address,
                self.endpoints[j].kind,
            )
    }

    /// Association rows reference existing rows and hold no duplicate pair.
    pub open spec fn links_ok(self) -> bool {
        &&& forall|i: int|
            0 <= i < self.links.len() ==> has_chain_id(
                self.chains,
                (#[trigger] self.links[i]).chain_id,
            ) && has_endpoint_id(self.endpoints, self.links[i].endpoint_id)
        &&& forall|i: int, j: int|
            0 <= i < j < self.links.len() ==> #[trigger] self.links[i] != #[trigger] self.links[j]
    }

    /// The store's invariant.
    pub open spec fn wf(self) -> bool {
        self.ids_ok() && self.keys_ok() && self.links_ok()
    }

    /// The empty store.
    pub open spec fn init() -> RegistryView {
        RegistryView {
            chains: Seq::empty(),
            endpoints: Seq::empty(),
            links: Seq::empty(),
            next_chain_id: 1,
            next_endpoint_id: 1,
        }
    }
}

/// The store after upserting a chain row, together with the affected row's
/// identifier: an existing (name, network, commit) row is left untouched, a
/// new one is appended with the next free identifier.
pub open spec fn spec_upsert_chain(
    s: RegistryView,
    name: Seq<char>,
    network: Network,
    commit: Seq<char>,
    doc: ChainDocView,
    asset: Seq<char>,
    now: u64,
) -> (RegistryView, u64) {
    if has_chain_key(s.chains, name, network, commit) {
        (s, s.chains[chain_key_at(s.chains, name, network, commit)].id)
    } else {
        (
            RegistryView {
                chains: s.chains.push(
                    ChainRowView {
                        id: s.next_chain_id,
                        name,
                        network,
                        commit,
                        chain_data: doc,
                        asset_data: asset,
                        created_at: now,
                    },
                ),
                next_chain_id: (s.next_chain_id + 1) as u64,
                ..s
            },
            s.next_chain_id,
        )
    }
}

/// Association rows stay valid under any table change that keeps every
/// row identifier in place.
pub(crate) proof fn lemma_links_ok_same_ids(a: RegistryView, b: RegistryView)
    requires
        a.links_ok(),
        b.links == a.links,
        b.chains.len() == a.chains.len(),
        forall|i: int|
            0 <= i < a.chains.len() ==> (#[trigger] b.chains[i]).id == (#[trigger] a.chains[i]).id,
        b.endpoints.len() == a.endpoints.len(),
        forall|i: int|
            0 <= i < a.endpoints.len() ==> (#[trigger] b.endpoints[i]).id == (
            #[trigger] a.endpoints[i]).id,
    ensures
        b.links_ok(),
{
    assert forall|x: int| 0 <= x < b.links.len() implies has_chain_id(
        b.chains,
        (#[trigger] b.links[x]).chain_id,
    ) && has_endpoint_id(b.endpoints, b.links[x].endpoint_id) by {
        let c = chain_id_at(a.chains, a.links[x].chain_id);
        assert(a.chains[c].id == a.links[x].chain_id);
        assert(b.chains[c].id == b.links[x].chain_id);
        let e = endpoint_id_at(a.endpoints, a.links[x].endpoint_id);
        assert(a.endpoints[e].id == a.links[x].endpoint_id);
        assert(b.endpoints[e].id == b.links[x].endpoint_id);
    }
}

/// The store after upserting an endpoint row, together with the affected
/// row's identifier: for an existing (address, kind) row only the provider
/// label is refreshed; a new row is appended alive under a fresh
/// identifier.
pub open spec fn spec_upsert_endpoint(
    s: RegistryView,
    address: Seq<char>,
    provider: Seq<char>,
    kind: EndpointKind,
    now: u64,
) -> (RegistryView, u64) {
    if has_endpoint_key(s.endpoints, address, kind) {
        let i = endpoint_key_at(s.endpoints, address, kind);
        (
            RegistryView {
                endpoints: s.endpoints.update(
                    i,
                    EndpointRowView { provider, ..s.endpoints[i] },
                ),
                ..s
            },
            s.endpoints[i].id,
        )
    } else {
        (
            RegistryView {
                endpoints: s.endpoints.push(
                    EndpointRowView {
                        id: s.next_endpoint_id,
                        address,
                        provider,
                        kind,
                        is_alive: true,
                        created_at: now,
                        updated_at: now,
                    },
                ),
                next_endpoint_id: (s.next_endpoint_id + 1) as u64,
                ..s
            },
            s.next_endpoint_id,
        )
    }
}

impl Registry {
    /// A fresh, empty store.
    pub fn new() -> (r: Registry)
        ensures
            r@ == RegistryView::init(),
            r@.wf(),
    {
        let r = Registry {
            chains: Vec::new(),
            endpoints: Vec::new(),
            links: Vec::new(),
            next_chain_id: 1,
            next_endpoint_id: 1,
        };
        proof {
            assert(r@ =~= RegistryView::init());
        }
        r
    }

    /// The index of the chain row with the given natural key, if any.
    fn find_chain_key(&self, name: &str, network: Network, commit: &str) -> (r: Option<usize>)
        ensures
            match r {
                Some(i) => i < self@.chains.len() && chain_key_matches(
                    self@.chains[i as int],
                    name@,
                    network,
                    commit@,
                ),
                None => !has_chain_key(self@.chains, name@, network, commit@),
            },
    {
        let mut i: usize = 0;
        while i < self.chains.len()
            invariant
                i <= self@.chains.len(),
                self@.chains.len() == self.chains.len(),
                forall|j: int|
                    0 <= j < i ==> !chain_key_matches(
                        #[trigger] self@.chains[j],
                        name@,
                        network,
                        commit@,
                    ),
            decreases self@.chains.len() - i,
        {
            let c = &self.chains[i];
            if str_eq(c.name.as_str(), name) && c.network == network && str_eq(
                c.commit.as_str(),
                commit,
            ) {
                return Some(i);
            }
            i = i + 1;
        }
        None
    }

    /// Upserts a chain row: a row already carrying (name, network, commit)
    /// is left exactly as it is and its identifier returned; otherwise a new
    /// row is appended under a fresh identifier.
    pub fn upsert_chain(
        &mut self,
        name: String,
        network: Network,
        commit: String,
        chain_data: ChainDoc,
        asset_data: String,
        now: u64,
    ) -> (id: u64)
        requires
            old(self)@.wf(),
            old(self).next_chain_id < u64::MAX,
        ensures
            final(self)@.wf(),
            final(self)@ == spec_upsert_chain(
                old(self)@,
                name@,
                network,
                commit@,
                chain_data@,
                asset_data@,
                now,
            ).0,
            id == spec_upsert_chain(
                old(self)@,
                name@,
                network,
                commit@,
                chain_data@,
                asset_data@,
                now,
            ).1,
    {
        match self.find_chain_key(name.as_str(), network, commit.as_str()) {
            Some(i) => {
                proof {
                    let k = chain_key_at(self@.chains, name@, network, commit@);
                    assert(chain_key_matches(self@.chains[k], name@, network, commit@));
                    if (i as int) < k {
                        assert(false);
                    } else if k < (i as int) {
                        assert(false);
                    }
                }
                self.chains[i].id
            },
            None => {
                let id = self.next_chain_id;
                let ghost old_view = self@;
                let row = Chain {
                    id,
                    name,
                    network,
                    commit,
                    chain_data,
                    asset_data,
                    created_at: now,
                };
                let ghost rowv = row@;
                self.chains.push(row);
                self.next_chain_id = self.next_chain_id + 1;
                proof {
                    assert(self@.chains =~= old_view.chains.push(rowv));
                    assert(self@ =~= spec_upsert_chain(
                        old_view,
                        name@,
                        network,
                        commit@,
                        chain_data@,
                        asset_data@,
                        now,
                    ).0);
                    let n = old_view.chains.len() as int;
                    assert forall|x: int, y: int|
                        0 <= x < y < self@.chains.len() implies !chain_key_matches(
                        #[trigger] self@.chains[x],
                        (#[trigger] self@.chains[y]).name,
                        self@.chains[y].network,
                        self@.chains[y].commit,
                    ) by {
                        if y == n {
                            assert(!chain_key_matches(old_view.chains[x], name@, network, commit@));
                        }
                    }
                    assert forall|x: int, y: int|
                        0 <= x < y < self@.chains.len() implies (#[trigger] self@.chains[x]).id != (
                    #[trigger] self@.chains[y]).id by {
                        if y == n {
                            assert(old_view.chains[x].id < old_view.next_chain_id);
                        }
                    }
                    assert forall|x: int|
                        0 <= x < self@.chains.len() implies 1 <= (#[trigger] self@.chains[x]).id
                        < self@.next_chain_id by {
                        if x < n {
                            assert(1 <= old_view.chains[x].id < old_view.next_chain_id);
                        }
                    }
                    assert(self@.ids_ok());
                    assert(self@.keys_ok());
                    assert forall|x: int|
                        0 <= x < self@.links.len() implies has_chain_id(
                        self@.chains,
                        (#[trigger] self@.links[x]).chain_id,
                    ) by {
                        let c = chain_id_at(old_view.chains, self@.links[x].chain_id);
                        assert(self@.chains[c].id == self@.links[x].chain_id);
                    }
                    assert(self@.wf());
                }
                id
            },
        }
    }

    /// The index of the endpoint row with the given natural key, if any.
    fn find_endpoint_key(&self, address: &str, kind: EndpointKind) -> (r: Option<usize>)
        ensures
            match r {
                Some(i) => i < self@.endpoints.len() && endpoint_key_matches(
                    self@.endpoints[i as int],
                    address@,
                    kind,
                ),
                None => !has_endpoint_key(self@.endpoints, address@, kind),
            },
    {
        let mut i: usize = 0;
        while i < self.endpoints.len()
            invariant
                i <= self@.endpoints.len(),
                self@.endpoints.len() == self.endpoints.len(),
                forall|j: int|
                    0 <= j < i ==> !endpoint_key_matches(
                        #[trigger] self@.endpoints[j],
                        address@,
                        kind,
                    ),
            decreases self@.endpoints.len() - i,
        {
            let e = &self.endpoints[i];
            if str_eq(e.address.as_str(), address) && e.kind == kind {
                return Some(i);
            }
            i = i + 1;
        }
        None
    }

    /// Upserts an endpoint row: a row already carrying (address, kind) keeps
    /// its identity, liveness and timestamps, and only its provider label is
    /// refreshed; otherwise a new row is appended alive under a fresh
    /// identifier.
    pub fn upsert_endpoint(
        &mut self,
        address: String,
        provider: String,
        kind: EndpointKind,
        now: u64,
    ) -> (id: u64)
        requires
            old(self)@.wf(),
            old(self).next_endpoint_id < u64::MAX,
        ensures
            final(self)@.wf(),
            final(self)@ == spec_upsert_endpoint(old(self)@, address@, provider@, kind, now).0,
            id == spec_upsert_endpoint(old(self)@, address@, provider@, kind, now).1,
    {
        let ghost old_view = self@;
        match self.find_endpoint_key(address.as_str(), kind) {
            Some(i) => {
                proof {
                    let k = endpoint_key_at(self@.endpoints, address@, kind);
                    assert(endpoint_key_matches(self@.endpoints[k], address@, kind));
                    if (i as int) < k {
                        assert(false);
                    } else if k < (i as int) {
                        assert(false);
                    }
                }
                let id = self.endpoints[i].id;
                let row = Endpoint {
                    id,
                    address: self.endpoints[i].address.clone(),
                    provider,
                    kind: self.endpoints[i].kind,
                    is_alive: self.endpoints[i].is_alive,
                    created_at: self.endpoints[i].created_at,
                    updated_at: self.endpoints[i].updated_at,
                };
                self.endpoints.set(i, row);
                proof {
                    assert(self@.endpoints =~= old_view.endpoints.update(
                        i as int,
                        EndpointRowView { provider: provider@, ..old_view.endpoints[i as int] },
                    ));
                    assert(self@ =~= spec_upsert_endpoint(
                        old_view,
                        address@,
                        provider@,
                        kind,
                        now,
                    ).0);
                    lemma_links_ok_same_ids(old_view, self@);
                    assert(self@.wf());
                }
                id
            },
            None => {
                let id = self.next_endpoint_id;
                let row = Endpoint {
                    id,
                    address,
                    provider,
                    kind,
                    is_alive: true,
                    created_at: now,
                    updated_at: now,
                };
                let ghost rowv = row@;
                self.endpoints.push(row);
                self.next_endpoint_id = self.next_endpoint_id + 1;
                proof {
                    assert(self@.endpoints =~= old_view.endpoints.push(rowv));
                    assert(self@ =~= spec_upsert_endpoint(
                        old_view,
                        address@,
                        provider@,
                        kind,
                        now,
                    ).0);
                    let n = old_view.endpoints.len() as int;
                    assert forall|x: int, y: int|
                        0 <= x < y < self@.endpoints.len() implies !endpoint_key_matches(
                        #[trigger] self@.endpoints[x],
                        (#[trigger] self@.endpoints[y]).address,
                        self@.endpoints[y].kind,
                    ) by {
                        if y == n {
                            assert(!endpoint_key_matches(old_view.endpoints[x], address@, kind));
                        }
                    }
                    assert forall|x: int, y: int|
                        0 <= x < y < self@.endpoints.len() implies (
                    #[trigger] self@.endpoints[x]).id != (#[trigger] self@.endpoints[y]).id by {
                        if y == n {
                            assert(old_view.endpoints[x].id < old_view.next_endpoint_id);
                        }
                    }
                    assert forall|x: int|
                        0 <= x < self@.endpoints.len() implies 1 <= (
                    #[trigger] self@.endpoints[x]).id < self@.next_endpoint_id by {
                        if x < n {
                            assert(1 <= old_view.endpoints[x].id < old_view.next_endpoint_id);
                        }
                    }
                    assert(self@.ids_ok());
                    assert(self@.keys_ok());
                    assert forall|x: int|
                        0 <= x < self@.links.len() implies has_endpoint_id(
                        self@.endpoints,
                        (#[trigger] self@.links[x]).endpoint_id,
                    ) by {
                        let e = endpoint_id_at(old_view.endpoints, self@.links[x].endpoint_id);
                        assert(self@.endpoints[e].id == self@.links[x].endpoint_id);
                    }
                    assert(self@.wf());
                }
                id
            },
        }
    }
}

} // verus!
