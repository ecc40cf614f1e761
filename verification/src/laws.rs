//! Laws of the registry that relate several operations: how probe
//! verdicts overwrite one another, and what retention keeps and drops.
use vstd::prelude::*;

use crate::db_chain::{
    commit_max_at, commit_max_prefix, first_commit_occurrence, kept_chains_prefix,
    newer_commit_count, newer_commit_prefix, spec_truncate, ChainRowView,
};
use crate::db_endpoint::EndpointKind;
use crate::db_peer::{chain_doc_entries, spec_insert_entries, spec_insert_peers, spec_join};
use crate::hydrate::{
    spec_chain_peers_pass, spec_hydrate_chains, spec_hydrate_peers, ChainImportView,
};
use crate::peers::{
    spec_derive_address, spec_provider_or_unknown, spec_update_liveness, RawPeerView,
};
use crate::store::{
    chain_key_matches, endpoint_id_at, endpoint_key_at, endpoint_key_matches, has_chain_key,
    has_endpoint_id, has_endpoint_key, spec_upsert_chain, spec_upsert_endpoint, RegistryView,
};

verus! {

/// Whether some chain row carries the given commit.
pub open spec fn has_commit(chains: Seq<ChainRowView>, commit: Seq<char>) -> bool {
    exists|i: int| 0 <= i < chains.len() && (#[trigger] chains[i]).commit == commit
}

/// Upserting chains whose keys are all present already changes nothing.
proof fn lemma_chains_phase_noop(
    s: RegistryView,
    batch: Seq<ChainImportView>,
    commit: Seq<char>,
    now: u64,
)
    requires
        forall|i: int|
            0 <= i < batch.len() ==> has_chain_key(
                s.chains,
                (#[trigger] batch[i]).name,
                batch[i].network,
                commit,
            ),
    ensures
        spec_hydrate_chains(s, batch, commit, now).0 == s,
    decreases batch.len(),
{
    if batch.len() > 0 {
        assert(has_chain_key(s.chains, batch[0].name, batch[0].network, commit));
        assert forall|i: int|
            0 <= i < batch.skip(1).len() implies has_chain_key(
            s.chains,
            (#[trigger] batch.skip(1)[i]).name,
            batch.skip(1)[i].network,
            commit,
        ) by {
            assert(batch.skip(1)[i] == batch[i + 1]);
        }
        lemma_chains_phase_noop(s, batch.skip(1), commit, now);
    }
}

/// Upserting chains whose keys are all present returns the identifiers of
/// the rows carrying them, all of which carry the run's commit.
proof fn lemma_chains_phase_noop_ids(
    s: RegistryView,
    batch: Seq<ChainImportView>,
    commit: Seq<char>,
    now: u64,
)
    requires
        forall|i: int|
            0 <= i < batch.len() ==> has_chain_key(
                s.chains,
                (#[trigger] batch[i]).name,
                batch[i].network,
                commit,
            ),
    ensures
        ({
            let r = spec_hydrate_chains(s, batch, commit, now);
            &&& r.1.len() == batch.len()
            &&& forall|j: int|
                0 <= j < batch.len() ==> exists|w: int|
                    0 <= w < s.chains.len() && (#[trigger] r.1[j]) == s.chains[w].id
                        && s.chains[w].commit == commit
        }),
    decreases batch.len(),
{
    lemma_chains_phase_noop(s, batch, commit, now);
    if batch.len() > 0 {
        let u = spec_upsert_chain(
            s,
            batch[0].name,
            batch[0].network,
            commit,
            batch[0].doc,
            batch[0].asset_data,
            now,
        );
        assert(u.0 == s);
        let w0 = crate::store::chain_key_at(s.chains, batch[0].name, batch[0].network, commit);
        assert(chain_key_matches(s.chains[w0], batch[0].name, batch[0].network, commit));
        assert forall|i: int|
            0 <= i < batch.skip(1).len() implies has_chain_key(
            s.chains,
            (#[trigger] batch.skip(1)[i]).name,
            batch.skip(1)[i].network,
            commit,
        ) by {
            assert(batch.skip(1)[i] == batch[i + 1]);
        }
        lemma_chains_phase_noop_ids(s, batch.skip(1), commit, now);
        let rr = spec_hydrate_chains(s, batch.skip(1), commit, now);
        let r = spec_hydrate_chains(s, batch, commit, now);
        assert(r.1 =~= seq![u.1] + rr.1);
        assert forall|j: int|
            0 <= j < batch.len() implies exists|w: int|
            0 <= w < s.chains.len() && (#[trigger] r.1[j]) == s.chains[w].id && s.chains[w].commit
                == commit by {
            if j == 0 {
                assert(r.1[0] == s.chains[w0].id && s.chains[w0].commit == commit);
            } else {
                assert(r.1[j] == rr.1[j - 1]);
                let w = choose|w: int|
                    0 <= w < s.chains.len() && rr.1[j - 1] == s.chains[w].id && s.chains[w].commit
                        == commit;
                assert(r.1[j] == s.chains[w].id && s.chains[w].commit == commit);
            }
        }
    }
}

/// Pruning does not change what a surviving chain's stored document says:
/// its peer entries read the same before and after.
proof fn lemma_doc_entries_after_truncate(
    mid: RegistryView,
    keep: u64,
    id: u64,
    kind: EndpointKind,
)
    requires
        forall|i: int, j: int|
            0 <= i < j < mid.chains.len() ==> (#[trigger] mid.chains[i]).id != (
            #[trigger] mid.chains[j]).id,
        crate::store::has_chain_id(spec_truncate(mid, keep).chains, id),
    ensures
        chain_doc_entries(spec_truncate(mid, keep), id, kind) == chain_doc_entries(mid, id, kind),
{
    let t = spec_truncate(mid, keep);
    let n = mid.chains.len() as int;
    crate::db_chain::lemma_kept_chains_embed(mid.chains, keep, n);
    let x = crate::store::chain_id_at(t.chains, id);
    assert(0 <= x < t.chains.len() && t.chains[x].id == id);
    let i = choose|i: int| 0 <= i < n && #[trigger] t.chains[x] == mid.chains[i];
    assert(mid.chains[i].id == id);
    assert(crate::store::has_chain_id(mid.chains, id));
    let j = crate::store::chain_id_at(mid.chains, id);
    assert(0 <= j < n && mid.chains[j].id == id);
    if i < j {
        assert(false);
    } else if j < i {
        assert(false);
    }
    assert(t.chains[x] == mid.chains[j]);
}

/// What one ingestion's chain phase does to the table: existing rows stay
/// in place untouched, every imported key ends up present, every appended
/// row carries the run's commit and timestamp and a fresh unique
/// identifier, and every appended row's identifier is among the returned
/// ones. Endpoints and associations are untouched.
proof fn lemma_chains_phase_shape(
    s: RegistryView,
    batch: Seq<ChainImportView>,
    commit: Seq<char>,
    now: u64,
)
    requires
        1 <= s.next_chain_id,
        s.next_chain_id + batch.len() <= u64::MAX,
        forall|i: int|
            0 <= i < s.chains.len() ==> 1 <= (#[trigger] s.chains[i]).id < s.next_chain_id,
        forall|i: int, j: int|
            0 <= i < j < s.chains.len() ==> (#[trigger] s.chains[i]).id != (
            #[trigger] s.chains[j]).id,
    ensures
        ({
            let r = spec_hydrate_chains(s, batch, commit, now);
            &&& r.0.chains.len() >= s.chains.len()
            &&& r.1.len() == batch.len()
            &&& forall|j: int| 0 <= j < s.chains.len() ==> #[trigger] r.0.chains[j] == s.chains[j]
            &&& forall|j: int|
                s.chains.len() <= j < r.0.chains.len() ==> (#[trigger] r.0.chains[j]).commit
                    == commit && r.0.chains[j].created_at == now
            &&& forall|i: int|
                0 <= i < batch.len() ==> has_chain_key(
                    r.0.chains,
                    (#[trigger] batch[i]).name,
                    batch[i].network,
                    commit,
                )
            &&& forall|j: int|
                s.chains.len() <= j < r.0.chains.len() ==> exists|i: int|
                    0 <= i < r.1.len() && r.1[i] == (#[trigger] r.0.chains[j]).id
            &&& forall|i: int|
                0 <= i < r.0.chains.len() ==> 1 <= (#[trigger] r.0.chains[i]).id
                    < r.0.next_chain_id
            &&& forall|i: int, j: int|
                0 <= i < j < r.0.chains.len() ==> (#[trigger] r.0.chains[i]).id != (
                #[trigger] r.0.chains[j]).id
            &&& r.0.endpoints == s.endpoints
            &&& r.0.links == s.links
            &&& r.0.next_endpoint_id == s.next_endpoint_id
            &&& s.next_chain_id <= r.0.next_chain_id <= s.next_chain_id + batch.len()
        }),
    decreases batch.len(),
{
    if batch.len() > 0 {
        let u = spec_upsert_chain(
            s,
            batch[0].name,
            batch[0].network,
            commit,
            batch[0].doc,
            batch[0].asset_data,
            now,
        );
        if !has_chain_key(s.chains, batch[0].name, batch[0].network, commit) {
            assert forall|i: int|
                0 <= i < u.0.chains.len() implies 1 <= (#[trigger] u.0.chains[i]).id
                < u.0.next_chain_id by {
                if i < s.chains.len() {
                    assert(1 <= s.chains[i].id < s.next_chain_id);
                }
            }
            assert forall|i: int, j: int|
                0 <= i < j < u.0.chains.len() implies (#[trigger] u.0.chains[i]).id != (
            #[trigger] u.0.chains[j]).id by {
                if j < s.chains.len() {
                    assert(s.chains[i].id != s.chains[j].id);
                } else {
                    assert(u.0.chains[i].id < s.next_chain_id);
                }
            }
        }
        lemma_chains_phase_shape(u.0, batch.skip(1), commit, now);
        let rr = spec_hydrate_chains(u.0, batch.skip(1), commit, now);
        let r = spec_hydrate_chains(s, batch, commit, now);
        assert(r.0 == rr.0);
        assert(r.1 =~= seq![u.1] + rr.1);
        assert forall|i: int|
            0 <= i < batch.len() implies has_chain_key(
            r.0.chains,
            (#[trigger] batch[i]).name,
            batch[i].network,
            commit,
        ) by {
            if i == 0 {
                if has_chain_key(s.chains, batch[0].name, batch[0].network, commit) {
                    let w = crate::store::chain_key_at(
                        s.chains,
                        batch[0].name,
                        batch[0].network,
                        commit,
                    );
                    assert(chain_key_matches(s.chains[w], batch[0].name, batch[0].network, commit));
                    assert(r.0.chains[w] == s.chains[w]);
                } else {
                    let w = s.chains.len() as int;
                    assert(chain_key_matches(
                        u.0.chains[w],
                        batch[0].name,
                        batch[0].network,
                        commit,
                    ));
                    assert(r.0.chains[w] == u.0.chains[w]);
                }
            } else {
                assert(batch.skip(1)[i - 1] == batch[i]);
                assert(has_chain_key(
                    r.0.chains,
                    batch.skip(1)[i - 1].name,
                    batch.skip(1)[i - 1].network,
                    commit,
                ));
            }
        }
        assert forall|j: int|
            s.chains.len() <= j < r.0.chains.len() implies exists|i: int|
            0 <= i < r.1.len() && r.1[i] == (#[trigger] r.0.chains[j]).id by {
            if j < u.0.chains.len() {
                assert(r.0.chains[j] == u.0.chains[j]);
                assert(u.0.chains[j].id == u.1);
                assert(r.1[0] == u.1);
            } else {
                let i = choose|i: int| 0 <= i < rr.1.len() && rr.1[i] == rr.0.chains[j].id;
                assert(r.1[i + 1] == rr.1[i]);
            }
        }
    }
}



/// Whether a peer entry carries both parts of a canonical address.
pub open spec fn entry_ok(e: RawPeerView) -> bool {
    e.node_id is Some && e.address is Some
}

/// The canonical address of a complete peer entry.
pub open spec fn entry_addr(e: RawPeerView) -> Seq<char> {
    match (e.node_id, e.address) {
        (Some(n), Some(a)) => spec_derive_address(n, a),
        _ => Seq::empty(),
    }
}

/// Upserting one endpoint keeps every present (address, kind) key
/// present, and makes the upserted key present.
proof fn lemma_upsert_endpoint_keys(
    s: RegistryView,
    address: Seq<char>,
    provider: Seq<char>,
    kind: EndpointKind,
    now: u64,
)
    ensures
        ({
            let t = spec_upsert_endpoint(s, address, provider, kind, now).0;
            &&& forall|a: Seq<char>, k: EndpointKind|
                has_endpoint_key(s.endpoints, a, k) ==> has_endpoint_key(t.endpoints, a, k)
            &&& has_endpoint_key(t.endpoints, address, kind)
        }),
{
    let t = spec_upsert_endpoint(s, address, provider, kind, now).0;
    if has_endpoint_key(s.endpoints, address, kind) {
        let i = endpoint_key_at(s.endpoints, address, kind);
        assert(endpoint_key_matches(s.endpoints[i], address, kind));
        assert(endpoint_key_matches(t.endpoints[i], address, kind));
        assert forall|a: Seq<char>, k: EndpointKind|
            has_endpoint_key(s.endpoints, a, k) implies has_endpoint_key(t.endpoints, a, k) by {
            let j = endpoint_key_at(s.endpoints, a, k);
            assert(endpoint_key_matches(s.endpoints[j], a, k));
            assert(endpoint_key_matches(t.endpoints[j], a, k));
        }
    } else {
        let n = s.endpoints.len() as int;
        assert(endpoint_key_matches(t.endpoints[n], address, kind));
        assert forall|a: Seq<char>, k: EndpointKind|
            has_endpoint_key(s.endpoints, a, k) implies has_endpoint_key(t.endpoints, a, k) by {
            let j = endpoint_key_at(s.endpoints, a, k);
            assert(endpoint_key_matches(t.endpoints[j], a, k));
        }
    }
}

/// Upserting a list of entries keeps every present (address, kind) key
/// present, and afterwards every complete entry's derived canonical
/// address has an endpoint row of the entry's kind. The chain table, the
/// association table, and the chain identifier counter are untouched.
pub proof fn lemma_entries_establish(s: RegistryView, es: Seq<RawPeerView>, kind: EndpointKind, now: u64)
    ensures
        ({
            let t = spec_insert_entries(s, es, kind, now).0;
            &&& forall|a: Seq<char>, k: EndpointKind|
                has_endpoint_key(s.endpoints, a, k) ==> has_endpoint_key(t.endpoints, a, k)
            &&& forall|i: int|
                0 <= i < es.len() && entry_ok(#[trigger] es[i]) ==> has_endpoint_key(
                    t.endpoints,
                    entry_addr(es[i]),
                    kind,
                )
            &&& t.chains == s.chains
            &&& t.links == s.links
            &&& t.next_chain_id == s.next_chain_id
        }),
    decreases es.len(),
{
    if es.len() > 0 {
        let e = es[0];
        if entry_ok(e) {
            let addr = entry_addr(e);
            let u = spec_upsert_endpoint(s, addr, spec_provider_or_unknown(e.provider), kind, now);
            lemma_upsert_endpoint_keys(s, addr, spec_provider_or_unknown(e.provider), kind, now);
            lemma_entries_establish(u.0, es.skip(1), kind, now);
            let t = spec_insert_entries(s, es, kind, now).0;
            assert forall|i: int|
                0 <= i < es.len() && entry_ok(#[trigger] es[i]) implies has_endpoint_key(
                t.endpoints,
                entry_addr(es[i]),
                kind,
            ) by {
                if i > 0 {
                    assert(es.skip(1)[i - 1] == es[i]);
                }
            }
        } else {
            lemma_entries_establish(s, es.skip(1), kind, now);
            let t = spec_insert_entries(s, es, kind, now).0;
            assert forall|i: int|
                0 <= i < es.len() && entry_ok(#[trigger] es[i]) implies has_endpoint_key(
                t.endpoints,
                entry_addr(es[i]),
                kind,
            ) by {
                if i > 0 {
                    assert(es.skip(1)[i - 1] == es[i]);
                }
            }
        }
    }
}

/// Upserting entries whose keys are all present appends no endpoint row:
/// the table keeps its length, its key set, and its identifier counter.
proof fn lemma_entries_no_growth(s: RegistryView, es: Seq<RawPeerView>, kind: EndpointKind, now: u64)
    requires
        forall|i: int|
            0 <= i < es.len() && entry_ok(#[trigger] es[i]) ==> has_endpoint_key(
                s.endpoints,
                entry_addr(es[i]),
                kind,
            ),
    ensures
        ({
            let t = spec_insert_entries(s, es, kind, now).0;
            &&& t.endpoints.len() == s.endpoints.len()
            &&& t.next_endpoint_id == s.next_endpoint_id
            &&& forall|a: Seq<char>, k: EndpointKind|
                has_endpoint_key(t.endpoints, a, k) <==> has_endpoint_key(s.endpoints, a, k)
            &&& t.chains == s.chains
            &&& t.links == s.links
            &&& t.next_chain_id == s.next_chain_id
        }),
    decreases es.len(),
{
    if es.len() > 0 {
        let e = es[0];
        if entry_ok(e) {
            let addr = entry_addr(e);
            let u = spec_upsert_endpoint(s, addr, spec_provider_or_unknown(e.provider), kind, now);
            assert(has_endpoint_key(s.endpoints, addr, kind));
            let i = endpoint_key_at(s.endpoints, addr, kind);
            assert(endpoint_key_matches(s.endpoints[i], addr, kind));
            assert(u.0.endpoints.len() == s.endpoints.len());
            assert forall|a: Seq<char>, k: EndpointKind|
                has_endpoint_key(u.0.endpoints, a, k) <==> has_endpoint_key(
                s.endpoints,
                a,
                k,
            ) by {
                if has_endpoint_key(s.endpoints, a, k) {
                    let j = endpoint_key_at(s.endpoints, a, k);
                    assert(endpoint_key_matches(u.0.endpoints[j], a, k));
                }
                if has_endpoint_key(u.0.endpoints, a, k) {
                    let j = endpoint_key_at(u.0.endpoints, a, k);
                    assert(endpoint_key_matches(s.endpoints[j], a, k));
                }
            }
            assert forall|x: int|
                0 <= x < es.skip(1).len() && entry_ok(#[trigger] es.skip(1)[x]) implies
                has_endpoint_key(u.0.endpoints, entry_addr(es.skip(1)[x]), kind) by {
                assert(es.skip(1)[x] == es[x + 1]);
            }
            lemma_entries_no_growth(u.0, es.skip(1), kind, now);
        } else {
            assert forall|x: int|
                0 <= x < es.skip(1).len() && entry_ok(#[trigger] es.skip(1)[x]) implies
                has_endpoint_key(s.endpoints, entry_addr(es.skip(1)[x]), kind) by {
                assert(es.skip(1)[x] == es[x + 1]);
            }
            lemma_entries_no_growth(s, es.skip(1), kind, now);
        }
    }
}

/// The identifier of the endpoint row carrying a key.
pub open spec fn endpoint_key_id(
    endpoints: Seq<crate::db_endpoint::EndpointRowView>,
    a: Seq<char>,
    k: EndpointKind,
) -> u64 {
    endpoints[endpoint_key_at(endpoints, a, k)].id
}

/// Whether every (address, kind) key names at most one endpoint row.
pub open spec fn endpoint_keys_unique(endpoints: Seq<crate::db_endpoint::EndpointRowView>) -> bool {
    forall|i: int, j: int|
        0 <= i < j < endpoints.len() ==> !endpoint_key_matches(
            #[trigger] endpoints[i],
            (#[trigger] endpoints[j]).address,
            endpoints[j].kind,
        )
}

/// One endpoint upsert keeps keys unique, keeps every present key under
/// its identifier, and leaves the upserted key present.
proof fn lemma_upsert_endpoint_ids(
    s: RegistryView,
    address: Seq<char>,
    provider: Seq<char>,
    kind: EndpointKind,
    now: u64,
)
    requires
        endpoint_keys_unique(s.endpoints),
    ensures
        ({
            let t = spec_upsert_endpoint(s, address, provider, kind, now).0;
            &&& endpoint_keys_unique(t.endpoints)
            &&& forall|a: Seq<char>, k: EndpointKind|
                has_endpoint_key(s.endpoints, a, k) ==> has_endpoint_key(t.endpoints, a, k)
                    && endpoint_key_id(t.endpoints, a, k) == endpoint_key_id(s.endpoints, a, k)
            &&& has_endpoint_key(t.endpoints, address, kind)
            &&& endpoint_key_id(t.endpoints, address, kind) == spec_upsert_endpoint(
                s,
                address,
                provider,
                kind,
                now,
            ).1
        }),
{
    let t = spec_upsert_endpoint(s, address, provider, kind, now).0;
    lemma_upsert_endpoint_keys(s, address, provider, kind, now);
    if has_endpoint_key(s.endpoints, address, kind) {
        let i = endpoint_key_at(s.endpoints, address, kind);
        assert(endpoint_key_matches(s.endpoints[i], address, kind));
        assert(endpoint_keys_unique(t.endpoints));
        assert forall|a: Seq<char>, k: EndpointKind|
            has_endpoint_key(s.endpoints, a, k) implies has_endpoint_key(t.endpoints, a, k)
            && endpoint_key_id(t.endpoints, a, k) == endpoint_key_id(s.endpoints, a, k) by {
            let j = endpoint_key_at(s.endpoints, a, k);
            assert(endpoint_key_matches(s.endpoints[j], a, k));
            assert(endpoint_key_matches(t.endpoints[j], a, k));
            let j2 = endpoint_key_at(t.endpoints, a, k);
            assert(endpoint_key_matches(t.endpoints[j2], a, k));
            if j < j2 {
                assert(false);
            } else if j2 < j {
                assert(endpoint_key_matches(s.endpoints[j2], a, k));
                assert(false);
            }
            assert(t.endpoints[j].id == s.endpoints[j].id);
        }
        let i2 = endpoint_key_at(t.endpoints, address, kind);
        assert(endpoint_key_matches(t.endpoints[i2], address, kind));
        if i < i2 {
            assert(false);
        } else if i2 < i {
            assert(endpoint_key_matches(s.endpoints[i2], address, kind));
            assert(false);
        }
    } else {
        let n = s.endpoints.len() as int;
        assert(endpoint_key_matches(t.endpoints[n], address, kind));
        assert forall|x: int, y: int|
            0 <= x < y < t.endpoints.len() implies !endpoint_key_matches(
            #[trigger] t.endpoints[x],
            (#[trigger] t.endpoints[y]).address,
            t.endpoints[y].kind,
        ) by {
            if y == n {
                if endpoint_key_matches(t.endpoints[x], address, kind) {
                    assert(endpoint_key_matches(s.endpoints[x], address, kind));
                }
            }
        }
        assert forall|a: Seq<char>, k: EndpointKind|
            has_endpoint_key(s.endpoints, a, k) implies has_endpoint_key(t.endpoints, a, k)
            && endpoint_key_id(t.endpoints, a, k) == endpoint_key_id(s.endpoints, a, k) by {
            let j = endpoint_key_at(s.endpoints, a, k);
            assert(endpoint_key_matches(s.endpoints[j], a, k));
            assert(endpoint_key_matches(t.endpoints[j], a, k));
            let j2 = endpoint_key_at(t.endpoints, a, k);
            assert(endpoint_key_matches(t.endpoints[j2], a, k));
            if j2 == n {
                assert(endpoint_key_matches(s.endpoints[j], address, kind));
                assert(false);
            }
            if j < j2 {
                assert(false);
            } else if j2 < j {
                assert(endpoint_key_matches(s.endpoints[j2], a, k));
                assert(false);
            }
        }
        let i2 = endpoint_key_at(t.endpoints, address, kind);
        assert(endpoint_key_matches(t.endpoints[i2], address, kind));
        if i2 < n {
            assert(endpoint_key_matches(s.endpoints[i2], address, kind));
            assert(false);
        }
    }
}

/// Upserting a list of entries keeps keys unique and keeps every present
/// key under its identifier.
proof fn lemma_entries_track_ids(s: RegistryView, es: Seq<RawPeerView>, kind: EndpointKind, now: u64)
    requires
        endpoint_keys_unique(s.endpoints),
    ensures
        ({
            let t = spec_insert_entries(s, es, kind, now).0;
            &&& endpoint_keys_unique(t.endpoints)
            &&& forall|a: Seq<char>, k: EndpointKind|
                has_endpoint_key(s.endpoints, a, k) ==> has_endpoint_key(t.endpoints, a, k)
                    && endpoint_key_id(t.endpoints, a, k) == endpoint_key_id(s.endpoints, a, k)
        }),
    decreases es.len(),
{
    if es.len() > 0 {
        let e = es[0];
        if entry_ok(e) {
            let u = spec_upsert_endpoint(
                s,
                entry_addr(e),
                spec_provider_or_unknown(e.provider),
                kind,
                now,
            );
            lemma_upsert_endpoint_ids(
                s,
                entry_addr(e),
                spec_provider_or_unknown(e.provider),
                kind,
                now,
            );
            lemma_entries_track_ids(u.0, es.skip(1), kind, now);
        } else {
            lemma_entries_track_ids(s, es.skip(1), kind, now);
        }
    }
}

/// Replaying an entry upsert against any store that assigns every entry's
/// key the identifier the first run settled on hands back the same
/// identifier list.
proof fn lemma_entries_replay(
    s: RegistryView,
    x: RegistryView,
    es: Seq<RawPeerView>,
    kind: EndpointKind,
    t1: u64,
    t2: u64,
)
    requires
        endpoint_keys_unique(s.endpoints),
        endpoint_keys_unique(x.endpoints),
        forall|i: int|
            0 <= i < es.len() && entry_ok(#[trigger] es[i]) ==> has_endpoint_key(
                x.endpoints,
                entry_addr(es[i]),
                kind,
            ) && endpoint_key_id(x.endpoints, entry_addr(es[i]), kind) == endpoint_key_id(
                spec_insert_entries(s, es, kind, t1).0.endpoints,
                entry_addr(es[i]),
                kind,
            ),
    ensures
        spec_insert_entries(x, es, kind, t2).1 == spec_insert_entries(s, es, kind, t1).1,
    decreases es.len(),
{
    if es.len() > 0 {
        let e = es[0];
        if entry_ok(e) {
            let addr = entry_addr(e);
            let prov = spec_provider_or_unknown(e.provider);
            let u = spec_upsert_endpoint(s, addr, prov, kind, t1);
            let w = spec_upsert_endpoint(x, addr, prov, kind, t2);
            lemma_upsert_endpoint_ids(s, addr, prov, kind, t1);
            lemma_upsert_endpoint_ids(x, addr, prov, kind, t2);
            lemma_entries_track_ids(u.0, es.skip(1), kind, t1);
            assert(spec_insert_entries(s, es, kind, t1).0 == spec_insert_entries(
                u.0,
                es.skip(1),
                kind,
                t1,
            ).0);
            assert(endpoint_key_id(
                spec_insert_entries(s, es, kind, t1).0.endpoints,
                addr,
                kind,
            ) == u.1);
            assert(w.1 == endpoint_key_id(x.endpoints, addr, kind));
            assert(w.1 == u.1);
            assert forall|i: int|
                0 <= i < es.skip(1).len() && entry_ok(#[trigger] es.skip(1)[i]) implies
                has_endpoint_key(w.0.endpoints, entry_addr(es.skip(1)[i]), kind)
                    && endpoint_key_id(w.0.endpoints, entry_addr(es.skip(1)[i]), kind)
                    == endpoint_key_id(
                    spec_insert_entries(u.0, es.skip(1), kind, t1).0.endpoints,
                    entry_addr(es.skip(1)[i]),
                    kind,
                ) by {
                assert(es.skip(1)[i] == es[i + 1]);
                let a2 = entry_addr(es[i + 1]);
                assert(has_endpoint_key(x.endpoints, a2, kind));
                assert(endpoint_key_id(w.0.endpoints, a2, kind) == endpoint_key_id(
                    x.endpoints,
                    a2,
                    kind,
                ));
            }
            lemma_entries_replay(u.0, w.0, es.skip(1), kind, t1, t2);
            assert(spec_insert_entries(x, es, kind, t2).1 =~= spec_insert_entries(
                s,
                es,
                kind,
                t1,
            ).1);
        } else {
            assert forall|i: int|
                0 <= i < es.skip(1).len() && entry_ok(#[trigger] es.skip(1)[i]) implies
                has_endpoint_key(x.endpoints, entry_addr(es.skip(1)[i]), kind)
                    && endpoint_key_id(x.endpoints, entry_addr(es.skip(1)[i]), kind)
                    == endpoint_key_id(
                    spec_insert_entries(s, es.skip(1), kind, t1).0.endpoints,
                    entry_addr(es.skip(1)[i]),
                    kind,
                ) by {
                assert(es.skip(1)[i] == es[i + 1]);
            }
            lemma_entries_replay(s, x, es.skip(1), kind, t1, t2);
        }
    }
}

/// Inserting one chain's peers of one kind twice is idempotent: the
/// second pass appends no endpoint row, changes no (address, kind) key,
/// touches no chain row, and hands back exactly the identifier list of
/// the first.
pub proof fn lemma_insert_peers_idempotent(
    s: RegistryView,
    chain_id: u64,
    kind: EndpointKind,
    t1: u64,
    t2: u64,
)
    requires
        endpoint_keys_unique(s.endpoints),
    ensures
        ({
            let r1 = spec_insert_peers(s, chain_id, kind, t1);
            let r2 = spec_insert_peers(r1.0, chain_id, kind, t2);
            &&& r2.0.endpoints.len() == r1.0.endpoints.len()
            &&& r2.0.chains == r1.0.chains
            &&& r2.1 == r1.1
            &&& forall|a: Seq<char>, k: EndpointKind|
                has_endpoint_key(r2.0.endpoints, a, k) <==> has_endpoint_key(r1.0.endpoints, a, k)
        }),
{
    let es = chain_doc_entries(s, chain_id, kind);
    lemma_entries_establish(s, es, kind, t1);
    let r1 = spec_insert_peers(s, chain_id, kind, t1);
    lemma_doc_entries_same_chains(r1.0, s, chain_id, kind);
    lemma_entries_no_growth(r1.0, es, kind, t2);
    lemma_entries_track_ids(s, es, kind, t1);
    assert forall|i: int|
        0 <= i < es.len() && entry_ok(#[trigger] es[i]) implies has_endpoint_key(
        r1.0.endpoints,
        entry_addr(es[i]),
        kind,
    ) && endpoint_key_id(r1.0.endpoints, entry_addr(es[i]), kind) == endpoint_key_id(
        spec_insert_entries(s, es, kind, t1).0.endpoints,
        entry_addr(es[i]),
        kind,
    ) by {}
    lemma_entries_replay(s, r1.0, es, kind, t1, t2);
}

/// Whether every complete entry of a chain's stored peer arrays already
/// has its endpoint row.
pub open spec fn chain_entries_present(s: RegistryView, id: u64) -> bool {
    &&& forall|i: int|
        0 <= i < chain_doc_entries(s, id, EndpointKind::Peer).len() && entry_ok(
            #[trigger] chain_doc_entries(s, id, EndpointKind::Peer)[i],
        ) ==> has_endpoint_key(
            s.endpoints,
            entry_addr(chain_doc_entries(s, id, EndpointKind::Peer)[i]),
            EndpointKind::Peer,
        )
    &&& forall|i: int|
        0 <= i < chain_doc_entries(s, id, EndpointKind::Seed).len() && entry_ok(
            #[trigger] chain_doc_entries(s, id, EndpointKind::Seed)[i],
        ) ==> has_endpoint_key(
            s.endpoints,
            entry_addr(chain_doc_entries(s, id, EndpointKind::Seed)[i]),
            EndpointKind::Seed,
        )
}

/// Two stores with the same chain table read the same peer entries.
proof fn lemma_doc_entries_same_chains(a: RegistryView, b: RegistryView, id: u64, kind: EndpointKind)
    requires
        a.chains == b.chains,
    ensures
        chain_doc_entries(a, id, kind) == chain_doc_entries(b, id, kind),
{
}

/// One chain's pass keeps every present endpoint key present and makes
/// every complete entry of that chain's arrays present. The chain table is
/// untouched.
proof fn lemma_pass_establish(s: RegistryView, id: u64, now: u64)
    ensures
        ({
            let t = spec_chain_peers_pass(s, id, now);
            &&& t.chains == s.chains
            &&& t.next_chain_id == s.next_chain_id
            &&& forall|a: Seq<char>, k: EndpointKind|
                has_endpoint_key(s.endpoints, a, k) ==> has_endpoint_key(t.endpoints, a, k)
            &&& chain_entries_present(t, id)
        }),
{
    let es1 = chain_doc_entries(s, id, EndpointKind::Peer);
    let r1 = spec_insert_peers(s, id, EndpointKind::Peer, now);
    lemma_entries_establish(s, es1, EndpointKind::Peer, now);
    let s2 = spec_join(r1.0, id, r1.1);
    crate::db_peer::lemma_join_frame(r1.0, id, r1.1);
    lemma_doc_entries_same_chains(s2, s, id, EndpointKind::Seed);
    let es2 = chain_doc_entries(s2, id, EndpointKind::Seed);
    let r3 = spec_insert_peers(s2, id, EndpointKind::Seed, now);
    lemma_entries_establish(s2, es2, EndpointKind::Seed, now);
    crate::db_peer::lemma_join_frame(r3.0, id, r3.1);
    let t = spec_chain_peers_pass(s, id, now);
    lemma_doc_entries_same_chains(t, s, id, EndpointKind::Peer);
    lemma_doc_entries_same_chains(t, s, id, EndpointKind::Seed);
    assert(chain_doc_entries(s2, id, EndpointKind::Peer) == es1);
}

/// One chain's pass over arrays whose entries all have their endpoint
/// rows appends nothing: endpoint count, key set, and counters stay.
proof fn lemma_pass_no_growth(s: RegistryView, id: u64, now: u64)
    requires
        chain_entries_present(s, id),
    ensures
        ({
            let t = spec_chain_peers_pass(s, id, now);
            &&& t.chains == s.chains
            &&& t.next_chain_id == s.next_chain_id
            &&& t.endpoints.len() == s.endpoints.len()
            &&& t.next_endpoint_id == s.next_endpoint_id
            &&& forall|a: Seq<char>, k: EndpointKind|
                has_endpoint_key(t.endpoints, a, k) <==> has_endpoint_key(s.endpoints, a, k)
        }),
{
    let es1 = chain_doc_entries(s, id, EndpointKind::Peer);
    let r1 = spec_insert_peers(s, id, EndpointKind::Peer, now);
    lemma_entries_no_growth(s, es1, EndpointKind::Peer, now);
    let s2 = spec_join(r1.0, id, r1.1);
    crate::db_peer::lemma_join_frame(r1.0, id, r1.1);
    lemma_doc_entries_same_chains(s2, s, id, EndpointKind::Seed);
    let es2 = chain_doc_entries(s2, id, EndpointKind::Seed);
    let r3 = spec_insert_peers(s2, id, EndpointKind::Seed, now);
    lemma_entries_no_growth(s2, es2, EndpointKind::Seed, now);
    crate::db_peer::lemma_join_frame(r3.0, id, r3.1);
}

/// A whole peers phase over chains whose entries all have their endpoint
/// rows appends nothing.
proof fn lemma_phase_no_growth(s: RegistryView, ids: Seq<u64>, now: u64)
    requires
        forall|j: int| 0 <= j < ids.len() ==> chain_entries_present(s, #[trigger] ids[j]),
    ensures
        ({
            let t = spec_hydrate_peers(s, ids, now);
            &&& t.chains == s.chains
            &&& t.next_chain_id == s.next_chain_id
            &&& t.endpoints.len() == s.endpoints.len()
            &&& t.next_endpoint_id == s.next_endpoint_id
            &&& forall|a: Seq<char>, k: EndpointKind|
                has_endpoint_key(t.endpoints, a, k) <==> has_endpoint_key(s.endpoints, a, k)
        }),
    decreases ids.len(),
{
    if ids.len() > 0 {
        lemma_pass_no_growth(s, ids[0], now);
        let u = spec_chain_peers_pass(s, ids[0], now);
        assert forall|j: int|
            0 <= j < ids.skip(1).len() implies chain_entries_present(
            u,
            #[trigger] ids.skip(1)[j],
        ) by {
            assert(ids.skip(1)[j] == ids[j + 1]);
            let id = ids[j + 1];
            assert(chain_entries_present(s, id));
            lemma_doc_entries_same_chains(u, s, id, EndpointKind::Peer);
            lemma_doc_entries_same_chains(u, s, id, EndpointKind::Seed);
        }
        lemma_phase_no_growth(u, ids.skip(1), now);
    }
}

/// A whole peers phase keeps every present endpoint key present and makes
/// every processed chain's entries present. The chain table is untouched.
proof fn lemma_phase_establish(s: RegistryView, ids: Seq<u64>, now: u64)
    ensures
        ({
            let t = spec_hydrate_peers(s, ids, now);
            &&& t.chains == s.chains
            &&& t.next_chain_id == s.next_chain_id
            &&& forall|a: Seq<char>, k: EndpointKind|
                has_endpoint_key(s.endpoints, a, k) ==> has_endpoint_key(t.endpoints, a, k)
            &&& forall|j: int| 0 <= j < ids.len() ==> chain_entries_present(t, #[trigger] ids[j])
        }),
    decreases ids.len(),
{
    if ids.len() > 0 {
        lemma_pass_establish(s, ids[0], now);
        let u = spec_chain_peers_pass(s, ids[0], now);
        lemma_phase_establish(u, ids.skip(1), now);
        let t = spec_hydrate_peers(s, ids, now);
        assert forall|j: int|
            0 <= j < ids.len() implies chain_entries_present(t, #[trigger] ids[j]) by {
            let id = ids[j];
            if j == 0 {
                lemma_doc_entries_same_chains(t, u, id, EndpointKind::Peer);
                lemma_doc_entries_same_chains(t, u, id, EndpointKind::Seed);
                assert(chain_entries_present(u, id));
            } else {
                assert(ids.skip(1)[j - 1] == ids[j]);
                assert(chain_entries_present(t, ids.skip(1)[j - 1]));
            }
        }
    }
}

/// A probe verdict overwrites the previous one and nothing else: after a
/// failed probe the endpoint is dead no matter what it was before; after a
/// following successful probe it is alive again; no stale verdict
/// survives, and no other endpoint row is touched.
pub proof fn lemma_liveness_monotonic_overwrite(s: RegistryView, id: u64, t1: u64, t2: u64)
    requires
        s.wf(),
        has_endpoint_id(s.endpoints, id),
    ensures
        ({
            let i = endpoint_id_at(s.endpoints, id);
            let s1 = spec_update_liveness(s, id, false, t1);
            let s2 = spec_update_liveness(s1, id, true, t2);
            &&& !s1.endpoints[i].is_alive
            &&& s1.endpoints[i].updated_at == t1
            &&& s2.endpoints[i].is_alive
            &&& s2.endpoints[i].updated_at == t2
            &&& s2.endpoints.len() == s.endpoints.len()
            &&& forall|j: int|
                0 <= j < s.endpoints.len() && j != i ==> #[trigger] s2.endpoints[j]
                    == s.endpoints[j]
        }),
{
    let i = endpoint_id_at(s.endpoints, id);
    assert(0 <= i < s.endpoints.len() && s.endpoints[i].id == id);
    let s1 = spec_update_liveness(s, id, false, t1);
    assert(s1.endpoints[i].id == id);
    assert(has_endpoint_id(s1.endpoints, id));
    let k = endpoint_id_at(s1.endpoints, id);
    assert(0 <= k < s1.endpoints.len() && s1.endpoints[k].id == id);
    if k != i {
        assert(s.endpoints[k].id == id);
        assert(false);
    }
}

/// Retention drops a row exactly when at least `keep` distinct commits
/// were last seen strictly later than the row's commit.
pub proof fn lemma_retention_rank(s: RegistryView, keep: u64, n: int)
    requires
        0 <= n <= s.chains.len(),
    ensures
        forall|x: int|
            0 <= x < kept_chains_prefix(s.chains, keep, n).len() ==> newer_commit_count(
                s.chains,
                (#[trigger] kept_chains_prefix(s.chains, keep, n)[x]).commit,
            ) < keep,
        forall|y: int|
            0 <= y < n && newer_commit_count(s.chains, (#[trigger] s.chains[y]).commit) < keep
                ==> exists|x: int|
                0 <= x < kept_chains_prefix(s.chains, keep, n).len()
                    && #[trigger] kept_chains_prefix(s.chains, keep, n)[x] == s.chains[y],
    decreases n,
{
    if n > 0 {
        lemma_retention_rank(s, keep, n - 1);
        let rest = kept_chains_prefix(s.chains, keep, n - 1);
        let cur = kept_chains_prefix(s.chains, keep, n);
        assert forall|y: int|
            0 <= y < n && newer_commit_count(s.chains, (#[trigger] s.chains[y]).commit)
                < keep implies exists|x: int|
            0 <= x < cur.len() && #[trigger] cur[x] == s.chains[y] by {
            if y == n - 1 {
                assert(cur[cur.len() - 1] == s.chains[y]);
            } else {
                let x = choose|x: int| 0 <= x < rest.len() && #[trigger] rest[x] == s.chains[y];
                assert(cur[x] == s.chains[y]);
            }
        }
    }
}

/// A commit last seen no earlier than another is strictly newer than no
/// more commits than the other.
proof fn lemma_rank_monotone(chains: Seq<ChainRowView>, c1: Seq<char>, c2: Seq<char>, n: int)
    requires
        0 <= n <= chains.len(),
        commit_max_at(chains, c1) >= commit_max_at(chains, c2),
    ensures
        newer_commit_prefix(chains, c1, n) <= newer_commit_prefix(chains, c2, n),
    decreases n,
{
    if n > 0 {
        lemma_rank_monotone(chains, c1, c2, n - 1);
    }
}

/// Retention orders commits: every commit of a surviving chain row was
/// last seen strictly later than the commit of any dropped row.
pub proof fn lemma_retention_orders_commits(s: RegistryView, keep: u64, x: int, y: int)
    requires
        0 <= x < spec_truncate(s, keep).chains.len(),
        0 <= y < s.chains.len(),
        newer_commit_count(s.chains, s.chains[y].commit) >= keep,
    ensures
        commit_max_at(s.chains, spec_truncate(s, keep).chains[x].commit) > commit_max_at(
            s.chains,
            s.chains[y].commit,
        ),
{
    let n = s.chains.len() as int;
    lemma_retention_rank(s, keep, n);
    let kc = spec_truncate(s, keep).chains;
    let cx = kc[x].commit;
    let cy = s.chains[y].commit;
    assert(newer_commit_count(s.chains, cx) < keep);
    if commit_max_at(s.chains, cx) <= commit_max_at(s.chains, cy) {
        lemma_rank_monotone(s.chains, cy, cx, n);
        assert(newer_commit_count(s.chains, cy) <= newer_commit_count(s.chains, cx));
        assert(false);
    }
}

/// A chain table wrapped as a bare store, for reusing row-table lemmas.
spec fn table_store(chains: Seq<ChainRowView>) -> RegistryView {
    RegistryView {
        chains,
        endpoints: Seq::empty(),
        links: Seq::empty(),
        next_chain_id: 1,
        next_endpoint_id: 1,
    }
}

/// Two tables agreeing on their first `m` rows agree on the latest
/// creation time any commit was seen with among them.
proof fn lemma_commit_max_prefix_agree(
    x: Seq<ChainRowView>,
    y: Seq<ChainRowView>,
    c: Seq<char>,
    m: int,
)
    requires
        0 <= m <= x.len(),
        m <= y.len(),
        forall|j: int| 0 <= j < m ==> x[j] == y[j],
    ensures
        commit_max_prefix(x, c, m) == commit_max_prefix(y, c, m),
    decreases m,
{
    if m > 0 {
        lemma_commit_max_prefix_agree(x, y, c, m - 1);
    }
}

/// Every survivor prefix is a prefix of the full survivor table.
proof fn lemma_kept_prefix_prefix(A: Seq<ChainRowView>, keep: u64, n: int)
    requires
        0 <= n <= A.len(),
    ensures
        kept_chains_prefix(A, keep, n).len() <= kept_chains_prefix(A, keep, A.len() as int).len(),
        forall|j: int|
            0 <= j < kept_chains_prefix(A, keep, n).len() ==> #[trigger] kept_chains_prefix(
                A,
                keep,
                n,
            )[j] == kept_chains_prefix(A, keep, A.len() as int)[j],
    decreases A.len() - n,
{
    if n < A.len() {
        lemma_kept_prefix_prefix(A, keep, n + 1);
        assert forall|j: int|
            0 <= j < kept_chains_prefix(A, keep, n).len() implies #[trigger] kept_chains_prefix(
            A,
            keep,
            n,
        )[j] == kept_chains_prefix(A, keep, A.len() as int)[j] by {
            assert(kept_chains_prefix(A, keep, n)[j] == kept_chains_prefix(A, keep, n + 1)[j]);
        }
    }
}

/// For a surviving commit, the survivor table remembers the same latest
/// creation time as the full table, prefix by prefix.
proof fn lemma_kept_max(A: Seq<ChainRowView>, keep: u64, c: Seq<char>, n: int)
    requires
        0 <= n <= A.len(),
        newer_commit_count(A, c) < keep,
    ensures
        commit_max_prefix(
            kept_chains_prefix(A, keep, A.len() as int),
            c,
            kept_chains_prefix(A, keep, n).len() as int,
        ) == commit_max_prefix(A, c, n),
    decreases n,
{
    let ghost b = kept_chains_prefix(A, keep, A.len() as int);
    if n > 0 {
        lemma_kept_max(A, keep, c, n - 1);
        lemma_kept_prefix_prefix(A, keep, n - 1);
        lemma_kept_prefix_prefix(A, keep, n);
        let m1 = kept_chains_prefix(A, keep, n - 1).len() as int;
        let m = kept_chains_prefix(A, keep, n).len() as int;
        if newer_commit_count(A, A[n - 1].commit) < keep {
            assert(kept_chains_prefix(A, keep, n)[m - 1] == A[n - 1]);
            assert(b[m - 1] == A[n - 1]);
        } else {
            assert(m == m1);
            if A[n - 1].commit == c {
                assert(false);
            }
        }
    }
}

/// How many first occurrences among the first `n` rows belong to commits
/// both strictly newer than the given one and surviving retention.
spec fn newer_surv_prefix(A: Seq<ChainRowView>, keep: u64, c: Seq<char>, n: int) -> int
    decreases n,
{
    if n <= 0 {
        0
    } else {
        newer_surv_prefix(A, keep, c, n - 1) + if first_commit_occurrence(A, n - 1)
            && commit_max_at(A, A[n - 1].commit) > commit_max_at(A, c) && newer_commit_count(
            A,
            A[n - 1].commit,
        ) < keep {
            1int
        } else {
            0int
        }
    }
}

/// For a surviving commit, its rank within the survivor table counts
/// exactly the surviving commits strictly newer than it.
proof fn lemma_kept_rank_surv(A: Seq<ChainRowView>, keep: u64, c: Seq<char>, n: int)
    requires
        0 <= n <= A.len(),
        newer_commit_count(A, c) < keep,
    ensures
        newer_commit_prefix(
            kept_chains_prefix(A, keep, A.len() as int),
            c,
            kept_chains_prefix(A, keep, n).len() as int,
        ) == newer_surv_prefix(A, keep, c, n),
    decreases n,
{
    let ghost b = kept_chains_prefix(A, keep, A.len() as int);
    if n > 0 {
        lemma_kept_rank_surv(A, keep, c, n - 1);
        lemma_kept_prefix_prefix(A, keep, n - 1);
        lemma_kept_prefix_prefix(A, keep, n);
        let m1 = kept_chains_prefix(A, keep, n - 1).len() as int;
        let m = kept_chains_prefix(A, keep, n).len() as int;
        if newer_commit_count(A, A[n - 1].commit) < keep {
            assert(kept_chains_prefix(A, keep, n)[m - 1] == A[n - 1]);
            assert(b[m - 1] == A[n - 1]);
            assert(first_commit_occurrence(b, m - 1) == first_commit_occurrence(A, n - 1)) by {
                if !first_commit_occurrence(A, n - 1) {
                    let j = choose|j: int|
                        0 <= j < n - 1 && (#[trigger] A[j]).commit == A[n - 1].commit;
                    lemma_retention_rank(table_store(A), keep, n - 1);
                    let x = choose|x: int|
                        0 <= x < kept_chains_prefix(A, keep, n - 1).len()
                            && #[trigger] kept_chains_prefix(A, keep, n - 1)[x] == A[j];
                    assert(b[x] == A[j]);
                    assert(!first_commit_occurrence(b, m - 1));
                } else {
                    if !first_commit_occurrence(b, m - 1) {
                        let x = choose|x: int|
                            0 <= x < m - 1 && (#[trigger] b[x]).commit == b[m - 1].commit;
                        crate::db_chain::lemma_kept_chains_embed(A, keep, n - 1);
                        assert(kept_chains_prefix(A, keep, n - 1)[x] == b[x]);
                        let i = choose|i: int|
                            0 <= i < n - 1 && #[trigger] kept_chains_prefix(A, keep, n - 1)[x]
                                == A[i];
                        assert(A[i].commit == A[n - 1].commit);
                        assert(false);
                    }
                }
            }
            lemma_kept_max(A, keep, c, A.len() as int);
            lemma_kept_max(A, keep, A[n - 1].commit, A.len() as int);
        } else {
            assert(m == m1);
        }
    }
}

/// A surviving commit is strictly newer than no surviving commit that the
/// full table does not also rank strictly newer.
proof fn lemma_surv_eq_newer(A: Seq<ChainRowView>, keep: u64, c: Seq<char>, n: int)
    requires
        0 <= n <= A.len(),
        newer_commit_count(A, c) < keep,
    ensures
        newer_surv_prefix(A, keep, c, n) == newer_commit_prefix(A, c, n),
    decreases n,
{
    if n > 0 {
        lemma_surv_eq_newer(A, keep, c, n - 1);
        if first_commit_occurrence(A, n - 1) && commit_max_at(A, A[n - 1].commit) > commit_max_at(
            A,
            c,
        ) {
            lemma_rank_monotone(A, A[n - 1].commit, c, A.len() as int);
        }
    }
}

/// The distinct commits among the first `n` rows of a chain table.
pub open spec fn commits_prefix(a: Seq<ChainRowView>, n: int) -> Set<Seq<char>> {
    vstd::set_lib::set_int_range(0, n).map(|i: int| a[i].commit)
}

/// The distinct commits of a chain table.
pub open spec fn commit_set(a: Seq<ChainRowView>) -> Set<Seq<char>> {
    commits_prefix(a, a.len() as int)
}

/// The distinct commits of a prefix form a finite set.
proof fn lemma_commits_prefix_finite(a: Seq<ChainRowView>, n: int)
    requires
        0 <= n,
    ensures
        commits_prefix(a, n).finite(),
{
    vstd::set_lib::lemma_int_range(0, n);
    vstd::set_lib::set_int_range(0, n).lemma_map_finite(|i: int| a[i].commit);
}

/// A commit's rank counts exactly the distinct commits of the table last
/// seen strictly later than it.
proof fn lemma_rank_is_newer_card(a: Seq<ChainRowView>, c: Seq<char>, n: int)
    requires
        0 <= n <= a.len(),
    ensures
        commits_prefix(a, n).filter(
            |c2: Seq<char>| commit_max_at(a, c2) > commit_max_at(a, c),
        ).finite(),
        newer_commit_prefix(a, c, n) == commits_prefix(a, n).filter(
            |c2: Seq<char>| commit_max_at(a, c2) > commit_max_at(a, c),
        ).len(),
    decreases n,
{
    broadcast use vstd::set::group_set_axioms;
    broadcast use vstd::set_lib::group_set_properties;

    let pred = |c2: Seq<char>| commit_max_at(a, c2) > commit_max_at(a, c);
    lemma_commits_prefix_finite(a, n);
    if n == 0 {
        assert(vstd::set_lib::set_int_range(0, 0) =~= Set::<int>::empty());
        assert(commits_prefix(a, 0) =~= Set::<Seq<char>>::empty());
        assert(commits_prefix(a, 0).filter(pred) =~= Set::<Seq<char>>::empty());
    } else {
        lemma_rank_is_newer_card(a, c, n - 1);
        lemma_commits_prefix_finite(a, n - 1);
        let cur = a[n - 1].commit;
        assert(commits_prefix(a, n) =~= commits_prefix(a, n - 1).insert(cur)) by {
            assert forall|c2: Seq<char>| #[trigger] commits_prefix(a, n).contains(c2) implies
                commits_prefix(a, n - 1).insert(cur).contains(c2) by {
                let i = choose|i: int|
                    vstd::set_lib::set_int_range(0, n).contains(i) && a[i].commit == c2;
                if i < n - 1 {
                    assert(vstd::set_lib::set_int_range(0, n - 1).contains(i));
                    assert(commits_prefix(a, n - 1).contains(c2));
                }
            }
            assert forall|c2: Seq<char>|
                commits_prefix(a, n - 1).insert(cur).contains(c2) implies #[trigger] commits_prefix(
                a,
                n,
            ).contains(c2) by {
                if c2 == cur {
                    assert(vstd::set_lib::set_int_range(0, n).contains(n - 1));
                } else {
                    let i = choose|i: int|
                        vstd::set_lib::set_int_range(0, n - 1).contains(i) && a[i].commit == c2;
                    assert(vstd::set_lib::set_int_range(0, n).contains(i));
                }
            }
        }
        if pred(cur) {
            assert(commits_prefix(a, n).filter(pred) =~= commits_prefix(a, n - 1).filter(
                pred,
            ).insert(cur));
            if first_commit_occurrence(a, n - 1) {
                assert(!commits_prefix(a, n - 1).contains(cur)) by {
                    if commits_prefix(a, n - 1).contains(cur) {
                        let i = choose|i: int|
                            vstd::set_lib::set_int_range(0, n - 1).contains(i) && a[i].commit
                                == cur;
                        assert(a[i].commit == a[n - 1].commit);
                    }
                }
                assert(!commits_prefix(a, n - 1).filter(pred).contains(cur));
            } else {
                let j = choose|j: int| 0 <= j < n - 1 && (#[trigger] a[j]).commit == cur;
                assert(vstd::set_lib::set_int_range(0, n - 1).contains(j));
                assert(commits_prefix(a, n - 1).contains(cur));
                assert(commits_prefix(a, n - 1).filter(pred).contains(cur));
            }
        } else {
            assert(commits_prefix(a, n).filter(pred) =~= commits_prefix(a, n - 1).filter(pred));
        }
    }
}

/// A commit last seen strictly later than another outranks it strictly.
proof fn lemma_rank_strict(a: Seq<ChainRowView>, c1: Seq<char>, c2: Seq<char>)
    requires
        commit_set(a).contains(c1),
        commit_max_at(a, c1) > commit_max_at(a, c2),
    ensures
        newer_commit_count(a, c1) < newer_commit_count(a, c2),
{
    broadcast use vstd::set::group_set_axioms;

    let n = a.len() as int;
    let newer1 = |x: Seq<char>| commit_max_at(a, x) > commit_max_at(a, c1);
    let newer2 = |x: Seq<char>| commit_max_at(a, x) > commit_max_at(a, c2);
    lemma_rank_is_newer_card(a, c1, n);
    lemma_rank_is_newer_card(a, c2, n);
    let n1 = commits_prefix(a, n).filter(newer1);
    let n2 = commits_prefix(a, n).filter(newer2);
    assert(n1.subset_of(n2.remove(c1)));
    assert(n2.contains(c1));
    assert(n2.remove(c1).len() == n2.len() - 1);
    vstd::set_lib::lemma_len_subset(n1, n2.remove(c1));
}

/// A commit's rank is below the number of distinct commits.
proof fn lemma_rank_below_card(a: Seq<ChainRowView>, c: Seq<char>)
    requires
        commit_set(a).contains(c),
    ensures
        commit_set(a).finite(),
        0 <= newer_commit_count(a, c) < commit_set(a).len(),
{
    broadcast use vstd::set::group_set_axioms;

    let n = a.len() as int;
    lemma_commits_prefix_finite(a, n);
    let p = |x: Seq<char>| commit_max_at(a, x) > commit_max_at(a, c);
    lemma_rank_is_newer_card(a, c, n);
    let ns = commits_prefix(a, n).filter(p);
    assert(ns.subset_of(commit_set(a).remove(c)));
    assert(commit_set(a).remove(c).len() == commit_set(a).len() - 1);
    vstd::set_lib::lemma_len_subset(ns, commit_set(a).remove(c));
}

/// Under pairwise distinct commit recency, retention keeps exactly as
/// many distinct commits as it may: all of them when the table holds no
/// more than `keep`, and exactly `keep` of them — the most recently seen
/// ones — otherwise.
#[verifier::rlimit(100)]
pub proof fn lemma_retention_exact_count(s: RegistryView, keep: u64)
    requires
        forall|i: int, j: int|
            0 <= i < s.chains.len() && 0 <= j < s.chains.len() && (#[trigger] s.chains[i]).commit
                != (#[trigger] s.chains[j]).commit ==> commit_max_at(s.chains, s.chains[i].commit)
                != commit_max_at(s.chains, s.chains[j].commit),
    ensures
        ({
            let kept = commit_set(spec_truncate(s, keep).chains);
            let all = commit_set(s.chains);
            &&& kept.finite()
            &&& all.finite()
            &&& kept.len() as int == if all.len() <= keep {
                all.len() as int
            } else {
                keep as int
            }
        }),
{
    broadcast use vstd::set::group_set_axioms;

    let a = s.chains;
    let n = a.len() as int;
    let b = spec_truncate(s, keep).chains;
    let all = commit_set(a);
    let kept = commit_set(b);
    lemma_commits_prefix_finite(a, n);
    lemma_commits_prefix_finite(b, b.len() as int);
    lemma_retention_rank(s, keep, n);
    crate::db_chain::lemma_kept_chains_embed(a, keep, n);
    let rankf = |c: Seq<char>| newer_commit_count(a, c);
    let survivors = all.filter(|c: Seq<char>| newer_commit_count(a, c) < keep);
    assert(kept =~= survivors) by {
        assert forall|c: Seq<char>| #[trigger] kept.contains(c) implies survivors.contains(c) by {
            let x = choose|x: int|
                vstd::set_lib::set_int_range(0, b.len() as int).contains(x) && b[x].commit == c;
            assert(newer_commit_count(a, b[x].commit) < keep);
            let i = choose|i: int| 0 <= i < n && #[trigger] b[x] == a[i];
            assert(vstd::set_lib::set_int_range(0, n).contains(i));
            assert(all.contains(c));
        }
        assert forall|c: Seq<char>| #[trigger] survivors.contains(c) implies kept.contains(c) by {
            let i = choose|i: int| vstd::set_lib::set_int_range(0, n).contains(i) && a[i].commit == c;
            let x = choose|x: int|
                0 <= x < kept_chains_prefix(a, keep, n).len() && #[trigger] kept_chains_prefix(
                    a,
                    keep,
                    n,
                )[x] == a[i];
            assert(b[x].commit == c);
            assert(vstd::set_lib::set_int_range(0, b.len() as int).contains(x));
        }
    }
    assert(vstd::relations::injective_on(rankf, all)) by {
        assert forall|c1: Seq<char>, c2: Seq<char>|
            all.contains(c1) && all.contains(c2) && c1 != c2 implies rankf(c1) != rankf(c2) by {
            let i = choose|i: int|
                vstd::set_lib::set_int_range(0, n).contains(i) && a[i].commit == c1;
            let j = choose|j: int|
                vstd::set_lib::set_int_range(0, n).contains(j) && a[j].commit == c2;
            assert(commit_max_at(a, c1) != commit_max_at(a, c2));
            if commit_max_at(a, c1) > commit_max_at(a, c2) {
                lemma_rank_strict(a, c1, c2);
            } else {
                lemma_rank_strict(a, c2, c1);
            }
        }
    }
    let k = all.len();
    if k <= keep {
        assert(kept =~= all) by {
            assert forall|c: Seq<char>| #[trigger] all.contains(c) implies survivors.contains(
                c,
            ) by {
                lemma_rank_below_card(a, c);
            }
        }
    } else {
        let ranks = all.map(rankf);
        vstd::set_lib::lemma_map_size(all, ranks, rankf);
        assert(ranks.subset_of(vstd::set_lib::set_int_range(0, k as int))) by {
            assert forall|r: int| #[trigger] ranks.contains(r) implies 0 <= r < k by {
                let c = choose|c: Seq<char>| all.contains(c) && rankf(c) == r;
                lemma_rank_below_card(a, c);
            }
        }
        vstd::set_lib::lemma_int_range(0, k as int);
        vstd::set_lib::lemma_subset_equality(ranks, vstd::set_lib::set_int_range(0, k as int));
        let kept_ranks = kept.map(rankf);
        assert(vstd::relations::injective_on(rankf, kept));
        vstd::set_lib::lemma_map_size(kept, kept_ranks, rankf);
        assert(kept_ranks =~= vstd::set_lib::set_int_range(0, keep as int)) by {
            assert forall|r: int| #[trigger] kept_ranks.contains(r) implies 0 <= r < keep by {
                let c = choose|c: Seq<char>| kept.contains(c) && rankf(c) == r;
                lemma_rank_below_card(a, c);
            }
            assert forall|r: int|
                vstd::set_lib::set_int_range(0, keep as int).contains(r) implies #[trigger] kept_ranks.contains(
                r,
            ) by {
                assert(vstd::set_lib::set_int_range(0, k as int).contains(r));
                assert(ranks.contains(r));
                let c = choose|c: Seq<char>| all.contains(c) && rankf(c) == r;
                assert(survivors.contains(c));
                assert(kept.contains(c));
            }
        }
        vstd::set_lib::lemma_int_range(0, keep as int);
    }
}

/// A commit with no row among the first `n` has no creation time there.
proof fn lemma_max_prefix_no_c(A: Seq<ChainRowView>, c: Seq<char>, n: int)
    requires
        0 <= n <= A.len(),
        forall|j: int| 0 <= j < n ==> (#[trigger] A[j]).commit != c,
    ensures
        commit_max_prefix(A, c, n) == -1,
    decreases n,
{
    if n > 0 {
        lemma_max_prefix_no_c(A, c, n - 1);
    }
}

/// In a table whose first `sl` rows never carry the commit and whose
/// remaining rows all carry it with one timestamp, that timestamp is the
/// commit's latest creation time.
proof fn lemma_max_prefix_suffix(A: Seq<ChainRowView>, c: Seq<char>, sl: int, t: u64, n: int)
    requires
        0 <= sl < n <= A.len(),
        forall|j: int| 0 <= j < sl ==> (#[trigger] A[j]).commit != c,
        forall|j: int| sl <= j < A.len() ==> (#[trigger] A[j]).commit == c && A[j].created_at == t,
    ensures
        commit_max_prefix(A, c, n) == t,
    decreases n,
{
    if n - 1 == sl {
        lemma_max_prefix_no_c(A, c, sl);
    } else {
        lemma_max_prefix_suffix(A, c, sl, t, n - 1);
    }
}

/// A commit whose rows among the first `n` were all created before `t`
/// was last seen before `t` there.
proof fn lemma_max_prefix_lt(A: Seq<ChainRowView>, c: Seq<char>, t: u64, n: int)
    requires
        0 <= n <= A.len(),
        forall|j: int| 0 <= j < n && (#[trigger] A[j]).commit == c ==> A[j].created_at < t,
    ensures
        commit_max_prefix(A, c, n) < t,
    decreases n,
{
    if n > 0 {
        lemma_max_prefix_lt(A, c, t, n - 1);
    }
}

/// A commit at least as recent as every commit of the table outranks
/// none: no distinct commit is strictly newer than it.
proof fn lemma_rank_zero(A: Seq<ChainRowView>, c: Seq<char>, n: int)
    requires
        0 <= n <= A.len(),
        forall|j: int|
            0 <= j < A.len() ==> commit_max_at(A, (#[trigger] A[j]).commit) <= commit_max_at(A, c),
    ensures
        newer_commit_prefix(A, c, n) == 0,
    decreases n,
{
    if n > 0 {
        lemma_rank_zero(A, c, n - 1);
    }
}

/// Retention is stable: pruning an already pruned chain table removes
/// nothing more.
pub proof fn lemma_truncate_stable(A: Seq<ChainRowView>, keep: u64)
    ensures
        ({
            let b = kept_chains_prefix(A, keep, A.len() as int);
            kept_chains_prefix(b, keep, b.len() as int) == b
        }),
{
    let b = kept_chains_prefix(A, keep, A.len() as int);
    lemma_retention_rank(table_store(A), keep, A.len() as int);
    assert forall|y: int| 0 <= y < b.len() implies newer_commit_count(
        b,
        (#[trigger] b[y]).commit,
    ) < keep by {
        assert(newer_commit_count(A, b[y].commit) < keep);
        lemma_kept_rank_surv(A, keep, b[y].commit, A.len() as int);
        lemma_surv_eq_newer(A, keep, b[y].commit, A.len() as int);
    }
    lemma_retention_keeps_all(table_store(b), keep, b.len() as int);
    assert(b.take(b.len() as int) =~= b);
}

/// A commit new to the store and imported with the latest timestamp has
/// no distinct commit strictly newer than it after the chain phase.
#[verifier::rlimit(100)]
proof fn lemma_first_ingest_rank(
    s: RegistryView,
    b1: Seq<ChainImportView>,
    commit: Seq<char>,
    t1: u64,
)
    requires
        s.wf(),
        1 <= b1.len(),
        !has_commit(s.chains, commit),
        forall|i: int| 0 <= i < s.chains.len() ==> (#[trigger] s.chains[i]).created_at < t1,
        s.next_chain_id + b1.len() <= u64::MAX,
    ensures
        newer_commit_count(spec_hydrate_chains(s, b1, commit, t1).0.chains, commit) == 0,
        forall|j: int|
            0 <= j < spec_hydrate_chains(s, b1, commit, t1).0.chains.len()
                && (#[trigger] spec_hydrate_chains(s, b1, commit, t1).0.chains[j]).commit != commit
                ==> j < s.chains.len(),
{
    let r1 = spec_hydrate_chains(s, b1, commit, t1);
    let mid = r1.0;
    lemma_chains_phase_shape(s, b1, commit, t1);
    let sl = s.chains.len() as int;
    let n = mid.chains.len() as int;
    assert forall|j: int| 0 <= j < sl implies (#[trigger] mid.chains[j]).commit != commit by {
        assert(mid.chains[j] == s.chains[j]);
        if s.chains[j].commit == commit {
            assert(has_commit(s.chains, commit));
        }
    }
    assert(has_chain_key(mid.chains, b1[0].name, b1[0].network, commit));
    let w0 = choose|w: int|
        0 <= w < n && chain_key_matches(#[trigger] mid.chains[w], b1[0].name, b1[0].network, commit);
    assert(w0 >= sl);
    lemma_max_prefix_suffix(mid.chains, commit, sl, t1, n);
    assert(commit_max_at(mid.chains, commit) == t1);
    assert forall|j: int| 0 <= j < n implies commit_max_at(
        mid.chains,
        (#[trigger] mid.chains[j]).commit,
    ) <= commit_max_at(mid.chains, commit) by {
        if mid.chains[j].commit != commit {
            assert(j < sl);
            assert forall|x: int|
                0 <= x < n && (#[trigger] mid.chains[x]).commit == mid.chains[j].commit implies
                mid.chains[x].created_at < t1 by {
                assert(x < sl);
                assert(mid.chains[x] == s.chains[x]);
            }
            lemma_max_prefix_lt(mid.chains, mid.chains[j].commit, t1, n);
        }
    }
    lemma_rank_zero(mid.chains, commit, n);
}

/// After one ingestion of a commit new to the store, every imported key
/// is present in the pruned table.
#[verifier::rlimit(100)]
proof fn lemma_first_ingest_keys(
    s: RegistryView,
    b1: Seq<ChainImportView>,
    commit: Seq<char>,
    keep: u64,
    t1: u64,
)
    requires
        s.wf(),
        1 <= keep,
        1 <= b1.len(),
        !has_commit(s.chains, commit),
        forall|i: int| 0 <= i < s.chains.len() ==> (#[trigger] s.chains[i]).created_at < t1,
        s.next_chain_id + b1.len() <= u64::MAX,
    ensures
        ({
            let s1 = crate::hydrate::spec_hydrate(s, b1, commit, keep, t1);
            forall|i: int|
                0 <= i < b1.len() ==> has_chain_key(
                    s1.chains,
                    (#[trigger] b1[i]).name,
                    b1[i].network,
                    commit,
                )
        }),
{
    let r1 = spec_hydrate_chains(s, b1, commit, t1);
    let mid = r1.0;
    let ids1 = r1.1;
    lemma_chains_phase_shape(s, b1, commit, t1);
    let midp = spec_hydrate_peers(mid, ids1, t1);
    lemma_phase_establish(mid, ids1, t1);
    assert(midp.chains == mid.chains);
    let s1 = spec_truncate(midp, keep);
    let n = mid.chains.len() as int;
    lemma_first_ingest_rank(s, b1, commit, t1);
    lemma_retention_rank(table_store(mid.chains), keep, n);
    assert(s1.chains == kept_chains_prefix(mid.chains, keep, n));
    assert forall|i: int| 0 <= i < b1.len() implies has_chain_key(
        s1.chains,
        (#[trigger] b1[i]).name,
        b1[i].network,
        commit,
    ) by {
        assert(has_chain_key(mid.chains, b1[i].name, b1[i].network, commit));
        let w = choose|w: int|
            0 <= w < n && chain_key_matches(
                #[trigger] mid.chains[w],
                b1[i].name,
                b1[i].network,
                commit,
            );
        assert(mid.chains[w].commit == commit);
        assert(newer_commit_count(mid.chains, mid.chains[w].commit) < keep);
        let x = choose|x: int|
            0 <= x < kept_chains_prefix(mid.chains, keep, n).len() && #[trigger] kept_chains_prefix(
                mid.chains,
                keep,
                n,
            )[x] == mid.chains[w];
        assert(chain_key_matches(s1.chains[x], b1[i].name, b1[i].network, commit));
    }
}

/// After one ingestion of a commit new to the store, every surviving row
/// of that commit has endpoint rows for all its complete peer entries.
#[verifier::rlimit(100)]
proof fn lemma_first_ingest_entries(
    s: RegistryView,
    b1: Seq<ChainImportView>,
    commit: Seq<char>,
    keep: u64,
    t1: u64,
)
    requires
        s.wf(),
        1 <= keep,
        1 <= b1.len(),
        !has_commit(s.chains, commit),
        forall|i: int| 0 <= i < s.chains.len() ==> (#[trigger] s.chains[i]).created_at < t1,
        s.next_chain_id + b1.len() <= u64::MAX,
    ensures
        ({
            let s1 = crate::hydrate::spec_hydrate(s, b1, commit, keep, t1);
            forall|j: int|
                0 <= j < s1.chains.len() && (#[trigger] s1.chains[j]).commit == commit
                    ==> chain_entries_present(s1, s1.chains[j].id)
        }),
{
    let r1 = spec_hydrate_chains(s, b1, commit, t1);
    let mid = r1.0;
    let ids1 = r1.1;
    lemma_chains_phase_shape(s, b1, commit, t1);
    let midp = spec_hydrate_peers(mid, ids1, t1);
    lemma_phase_establish(mid, ids1, t1);
    assert(midp.chains == mid.chains);
    let s1 = spec_truncate(midp, keep);
    let sl = s.chains.len() as int;
    let n = mid.chains.len() as int;
    assert forall|j: int| 0 <= j < sl implies (#[trigger] mid.chains[j]).commit != commit by {
        assert(mid.chains[j] == s.chains[j]);
        if s.chains[j].commit == commit {
            assert(has_commit(s.chains, commit));
        }
    }
    assert forall|j: int|
        0 <= j < s1.chains.len() && (#[trigger] s1.chains[j]).commit
            == commit implies chain_entries_present(s1, s1.chains[j].id) by {
        crate::db_chain::lemma_kept_chains_embed(mid.chains, keep, n);
        let i0 = choose|i0: int| 0 <= i0 < n && #[trigger] s1.chains[j] == mid.chains[i0];
        assert(i0 >= sl);
        let idx = choose|idx: int|
            0 <= idx < ids1.len() && #[trigger] ids1[idx] == mid.chains[i0].id;
        assert(chain_entries_present(midp, ids1[idx]));
        assert(crate::store::has_chain_id(s1.chains, s1.chains[j].id));
        lemma_doc_entries_after_truncate(midp, keep, s1.chains[j].id, EndpointKind::Peer);
        lemma_doc_entries_after_truncate(midp, keep, s1.chains[j].id, EndpointKind::Seed);
        assert(s1.endpoints == midp.endpoints);
        assert(s1.chains[j].id == ids1[idx]);
        assert(chain_entries_present(s1, s1.chains[j].id));
    }
}

/// What one ingestion of a commit new to the store leaves behind: a
/// pruned table in which every imported key is present, and every row of
/// the new commit has endpoint rows for all its complete peer entries.
#[verifier::rlimit(100)]
proof fn lemma_first_ingest(
    s: RegistryView,
    b1: Seq<ChainImportView>,
    commit: Seq<char>,
    keep: u64,
    t1: u64,
)
    requires
        s.wf(),
        1 <= keep,
        1 <= b1.len(),
        !has_commit(s.chains, commit),
        forall|i: int| 0 <= i < s.chains.len() ==> (#[trigger] s.chains[i]).created_at < t1,
        s.next_chain_id + b1.len() <= u64::MAX,
    ensures
        ({
            let s1 = crate::hydrate::spec_hydrate(s, b1, commit, keep, t1);
            let a = spec_hydrate_chains(s, b1, commit, t1).0.chains;
            &&& s1.chains == kept_chains_prefix(a, keep, a.len() as int)
            &&& forall|i: int|
                0 <= i < b1.len() ==> has_chain_key(
                    s1.chains,
                    (#[trigger] b1[i]).name,
                    b1[i].network,
                    commit,
                )
            &&& forall|j: int|
                0 <= j < s1.chains.len() && (#[trigger] s1.chains[j]).commit == commit
                    ==> chain_entries_present(s1, s1.chains[j].id)
        }),
{
    let r1 = spec_hydrate_chains(s, b1, commit, t1);
    lemma_chains_phase_shape(s, b1, commit, t1);
    lemma_phase_establish(r1.0, r1.1, t1);
    assert(spec_hydrate_peers(r1.0, r1.1, t1).chains == r1.0.chains);
    lemma_first_ingest_keys(s, b1, commit, keep, t1);
    lemma_first_ingest_entries(s, b1, commit, keep, t1);
}

/// Re-importing the same commit into a pruned store changes nothing that
/// counts: the chain table stays exactly as it was, the endpoint table
/// keeps its length, and exactly the same (address, kind) keys exist.
#[verifier::rlimit(100)]
proof fn lemma_reingest_noop(
    s1: RegistryView,
    a: Seq<ChainRowView>,
    b2: Seq<ChainImportView>,
    commit: Seq<char>,
    keep: u64,
    t2: u64,
)
    requires
        s1.chains == kept_chains_prefix(a, keep, a.len() as int),
        forall|i: int|
            0 <= i < b2.len() ==> has_chain_key(
                s1.chains,
                (#[trigger] b2[i]).name,
                b2[i].network,
                commit,
            ),
        forall|j: int|
            0 <= j < s1.chains.len() && (#[trigger] s1.chains[j]).commit == commit
                ==> chain_entries_present(s1, s1.chains[j].id),
    ensures
        ({
            let s2 = crate::hydrate::spec_hydrate(s1, b2, commit, keep, t2);
            &&& s2.chains == s1.chains
            &&& s2.endpoints.len() == s1.endpoints.len()
            &&& forall|ad: Seq<char>, k: EndpointKind|
                has_endpoint_key(s2.endpoints, ad, k) <==> has_endpoint_key(s1.endpoints, ad, k)
        }),
{
    lemma_chains_phase_noop(s1, b2, commit, t2);
    lemma_chains_phase_noop_ids(s1, b2, commit, t2);
    let r2 = spec_hydrate_chains(s1, b2, commit, t2);
    let ids2 = r2.1;
    assert(r2.0 == s1);
    assert forall|j: int| 0 <= j < ids2.len() implies chain_entries_present(
        s1,
        #[trigger] ids2[j],
    ) by {
        let w = choose|w: int|
            0 <= w < s1.chains.len() && ids2[j] == (#[trigger] s1.chains[w]).id
                && s1.chains[w].commit == commit;
        assert(chain_entries_present(s1, s1.chains[w].id));
    }
    lemma_phase_no_growth(s1, ids2, t2);
    let x2 = spec_hydrate_peers(s1, ids2, t2);
    assert(x2.chains == s1.chains);
    lemma_truncate_stable(a, keep);
    let s2 = spec_truncate(x2, keep);
    assert(s2.chains == kept_chains_prefix(s1.chains, keep, s1.chains.len() as int));
    assert(s2.chains == s1.chains);
    assert(s2.endpoints == x2.endpoints);
    assert(s2 == crate::hydrate::spec_hydrate(s1, b2, commit, keep, t2));
}

/// A freshly ingested commit survives its own run's pruning: after one
/// ingestion of a non-empty batch under a commit new to the store, the
/// pruned chain table holds that commit.
pub proof fn lemma_ingest_commit_present(
    s: RegistryView,
    b1: Seq<ChainImportView>,
    commit: Seq<char>,
    keep: u64,
    t1: u64,
)
    requires
        s.wf(),
        1 <= keep,
        1 <= b1.len(),
        !has_commit(s.chains, commit),
        forall|i: int| 0 <= i < s.chains.len() ==> (#[trigger] s.chains[i]).created_at < t1,
        s.next_chain_id + b1.len() <= u64::MAX,
    ensures
        has_commit(crate::hydrate::spec_hydrate(s, b1, commit, keep, t1).chains, commit),
{
    lemma_first_ingest_keys(s, b1, commit, keep, t1);
    let s1 = crate::hydrate::spec_hydrate(s, b1, commit, keep, t1);
    assert(has_chain_key(s1.chains, b1[0].name, b1[0].network, commit));
    let w = choose|w: int|
        0 <= w < s1.chains.len() && chain_key_matches(
            #[trigger] s1.chains[w],
            b1[0].name,
            b1[0].network,
            commit,
        );
    assert(s1.chains[w].commit == commit);
}

/// Importing the same commit twice is idempotent: after the second run
/// the chain table is exactly what the first run left, the endpoint table
/// has the same number of rows, and exactly the same (address, kind) keys
/// exist — one row per key either time. The commit must be new to the
/// store, the batch non-empty with the same names and networks both
/// times, the clock must not run backwards, and the identifier space must
/// not run out.
pub proof fn lemma_ingest_idempotent(
    s: RegistryView,
    b1: Seq<ChainImportView>,
    b2: Seq<ChainImportView>,
    commit: Seq<char>,
    keep: u64,
    t1: u64,
    t2: u64,
)
    requires
        s.wf(),
        1 <= keep,
        1 <= b1.len(),
        b2.len() == b1.len(),
        forall|i: int|
            0 <= i < b1.len() ==> (#[trigger] b2[i]).name == b1[i].name && b2[i].network
                == b1[i].network,
        !has_commit(s.chains, commit),
        forall|i: int| 0 <= i < s.chains.len() ==> (#[trigger] s.chains[i]).created_at < t1,
        s.next_chain_id + b1.len() <= u64::MAX,
    ensures
        ({
            let s1 = crate::hydrate::spec_hydrate(s, b1, commit, keep, t1);
            let s2 = crate::hydrate::spec_hydrate(s1, b2, commit, keep, t2);
            &&& s2.chains == s1.chains
            &&& s2.endpoints.len() == s1.endpoints.len()
            &&& forall|a: Seq<char>, k: EndpointKind|
                has_endpoint_key(s2.endpoints, a, k) <==> has_endpoint_key(s1.endpoints, a, k)
        }),
{
    lemma_first_ingest(s, b1, commit, keep, t1);
    let s1 = crate::hydrate::spec_hydrate(s, b1, commit, keep, t1);
    let a = spec_hydrate_chains(s, b1, commit, t1).0.chains;
    assert forall|i: int| 0 <= i < b2.len() implies has_chain_key(
        s1.chains,
        (#[trigger] b2[i]).name,
        b2[i].network,
        commit,
    ) by {
        assert(has_chain_key(s1.chains, b1[i].name, b1[i].network, commit));
    }
    lemma_reingest_noop(s1, a, b2, commit, keep, t2);
}

/// When a table holds at most `keep` distinct commits, retention keeps
/// every row: no commit can have `keep` strictly newer distinct commits.
pub proof fn lemma_retention_keeps_all(s: RegistryView, keep: u64, n: int)
    requires
        0 <= n <= s.chains.len(),
        forall|y: int|
            0 <= y < s.chains.len() ==> newer_commit_count(
                s.chains,
                (#[trigger] s.chains[y]).commit,
            ) < keep,
    ensures
        kept_chains_prefix(s.chains, keep, n) == s.chains.take(n),
    decreases n,
{
    if n <= 0 {
        assert(kept_chains_prefix(s.chains, keep, n) =~= s.chains.take(n));
    } else {
        lemma_retention_keeps_all(s, keep, n - 1);
        assert(kept_chains_prefix(s.chains, keep, n) =~= s.chains.take(n));
    }
}

} // verus!
