//! The ingestion pipeline over a fetched repository checkout: discovering
//! chain directories, validating the resolved commit, and hydrating the
//! store from the parsed chain documents in one pass.
use vstd::prelude::*;

use crate::db_chain::{spec_truncate, truncate_old_chains, Network};
use crate::db_endpoint::EndpointKind;
use crate::db_peer::{
    chain_doc_entries, insert_persistent_peers, insert_seeds, join_chain_to_endpoints,
    lemma_insert_entries_frame, lemma_join_frame, spec_insert_peers, spec_join,
};
use crate::json::{ChainDoc, ChainDocView};
use crate::store::{has_chain_id, spec_upsert_chain, Registry, RegistryView, StoreError};
use crate::text::{has_prefix, is_prefix};

verus! {

/// A fetched checkout of the source repository: the resolved commit and
/// the discovered mainnet and testnet chain directory names.
#[derive(Debug)]
pub struct ChainRegRepo {
    pub commit: String,
    pub mainnets: Vec<String>,
    pub testnets: Vec<String>,
}

/// Whether a directory entry name names a chain directory: hidden entries
/// — those starting with `_` or `.` — and the reserved `testnets`
/// directory itself are not chains.
pub open spec fn is_chain_dir_name(name: Seq<char>) -> bool {
    &&& !is_prefix("_"@, name)
    &&& !is_prefix("."@, name)
    &&& name != "testnets"@
}

/// The chain directory names among the first `n` entries, in order.
pub open spec fn chain_dirs_prefix(names: Seq<Seq<char>>, n: int) -> Seq<Seq<char>>
    decreases n,
{
    if n <= 0 {
        Seq::empty()
    } else {
        let rest = chain_dirs_prefix(names, n - 1);
        if is_chain_dir_name(names[n - 1]) {
            rest.push(names[n - 1])
        } else {
            rest
        }
    }
}

/// Filters a directory listing down to the chain directories, excluding
/// reserved and hidden entries, in listing order.
pub fn collect_chains(names: Vec<String>) -> (r: Vec<String>)
    ensures
        r.deep_view() == chain_dirs_prefix(names.deep_view(), names.deep_view().len() as int),
{
    let mut out: Vec<String> = Vec::new();
    let mut i: usize = 0;
    while i < names.len()
        invariant
            i <= names@.len(),
            names.deep_view().len() == names@.len(),
            out@.len() == chain_dirs_prefix(names.deep_view(), i as int).len(),
            forall|x: int|
                0 <= x < out@.len() ==> (#[trigger] out@[x])@ == chain_dirs_prefix(
                    names.deep_view(),
                    i as int,
                )[x],
        decreases names@.len() - i,
    {
        let name = &names[i];
        if !has_prefix(name.as_str(), "_") && !has_prefix(name.as_str(), ".") && !crate::text::str_eq(
            name.as_str(),
            "testnets",
        ) {
            out.push(name.clone());
        }
        i = i + 1;
    }
    proof {
        let fin = chain_dirs_prefix(names.deep_view(), names.deep_view().len() as int);
        assert forall|x: int| 0 <= x < out.deep_view().len() implies out.deep_view()[x]
            == fin[x] by {
            assert(out@[x]@ == fin[x]);
        }
        assert(out.deep_view() =~= fin);
    }
    out
}

/// One chain ready to import: its name, network, parsed document, and
/// asset list text.
#[derive(Debug)]
pub struct ChainImport {
    pub name: String,
    pub network: Network,
    pub doc: ChainDoc,
    pub asset_data: String,
}

/// The mathematical value of a [`ChainImport`].
#[verifier::ext_equal]
pub struct ChainImportView {
    pub name: Seq<char>,
    pub network: Network,
    pub doc: ChainDocView,
    pub asset_data: Seq<char>,
}

impl View for ChainImport {
    type V = ChainImportView;

    open spec fn view(&self) -> ChainImportView {
        ChainImportView {
            name: self.name@,
            network: self.network,
            doc: self.doc@,
            asset_data: self.asset_data@,
        }
    }
}

impl DeepView for ChainImport {
    type V = ChainImportView;

    open spec fn deep_view(&self) -> ChainImportView {
        self.view()
    }
}

/// The store and the affected row identifiers after upserting one chain
/// row per import, left to right, all under one commit.
pub open spec fn spec_hydrate_chains(
    s: RegistryView,
    batch: Seq<ChainImportView>,
    commit: Seq<char>,
    now: u64,
) -> (RegistryView, Seq<u64>)
    decreases batch.len(),
{
    if batch.len() == 0 {
        (s, Seq::empty())
    } else {
        let r1 = spec_upsert_chain(
            s,
            batch[0].name,
            batch[0].network,
            commit,
            batch[0].doc,
            batch[0].asset_data,
            now,
        );
        let r2 = spec_hydrate_chains(r1.0, batch.skip(1), commit, now);
        (r2.0, seq![r1.1] + r2.1)
    }
}

/// The store after working through one chain's peers: its persistent
/// peers are upserted and linked, then its seeds.
pub open spec fn spec_chain_peers_pass(s: RegistryView, id: u64, now: u64) -> RegistryView {
    let r1 = spec_insert_peers(s, id, EndpointKind::Peer, now);
    let s2 = spec_join(r1.0, id, r1.1);
    let r3 = spec_insert_peers(s2, id, EndpointKind::Seed, now);
    spec_join(r3.0, id, r3.1)
}

/// How many peer entries one chain's pass works through.
pub open spec fn spec_peers_pass_count(s: RegistryView, id: u64, now: u64) -> int {
    let r1 = spec_insert_peers(s, id, EndpointKind::Peer, now);
    let s2 = spec_join(r1.0, id, r1.1);
    chain_doc_entries(s, id, EndpointKind::Peer).len() as int + chain_doc_entries(
        s2,
        id,
        EndpointKind::Seed,
    ).len() as int
}

/// The store after working through the peers of each listed chain.
pub open spec fn spec_hydrate_peers(s: RegistryView, ids: Seq<u64>, now: u64) -> RegistryView
    decreases ids.len(),
{
    if ids.len() == 0 {
        s
    } else {
        spec_hydrate_peers(spec_chain_peers_pass(s, ids[0], now), ids.skip(1), now)
    }
}

/// How many peer entries the passes over the listed chains work through.
pub open spec fn spec_hydrate_peers_count(s: RegistryView, ids: Seq<u64>, now: u64) -> int
    decreases ids.len(),
{
    if ids.len() == 0 {
        0
    } else {
        spec_peers_pass_count(s, ids[0], now) + spec_hydrate_peers_count(
            spec_chain_peers_pass(s, ids[0], now),
            ids.skip(1),
            now,
        )
    }
}

/// The store after one full ingestion run: every import's chain row
/// upserted under the commit, every chain's peers upserted and linked,
/// and the chain table pruned down to the most recent commits.
pub open spec fn spec_hydrate(
    s: RegistryView,
    batch: Seq<ChainImportView>,
    commit: Seq<char>,
    keep: u64,
    now: u64,
) -> RegistryView {
    let r1 = spec_hydrate_chains(s, batch, commit, now);
    spec_truncate(spec_hydrate_peers(r1.0, r1.1, now), keep)
}

/// One chain's pass allocates at most as many identifiers as it has
/// entries, and touches neither the chain table nor its counter.
pub proof fn lemma_pass_frame(s: RegistryView, id: u64, now: u64)
    requires
        s.next_endpoint_id + spec_peers_pass_count(s, id, now) <= u64::MAX,
    ensures
        spec_chain_peers_pass(s, id, now).next_endpoint_id <= s.next_endpoint_id
            + spec_peers_pass_count(s, id, now),
        spec_chain_peers_pass(s, id, now).chains == s.chains,
        spec_chain_peers_pass(s, id, now).next_chain_id == s.next_chain_id,
{
    let r1 = spec_insert_peers(s, id, EndpointKind::Peer, now);
    lemma_insert_entries_frame(s, chain_doc_entries(s, id, EndpointKind::Peer), EndpointKind::Peer, now);
    let s2 = spec_join(r1.0, id, r1.1);
    lemma_join_frame(r1.0, id, r1.1);
    let r3 = spec_insert_peers(s2, id, EndpointKind::Seed, now);
    lemma_insert_entries_frame(
        s2,
        chain_doc_entries(s2, id, EndpointKind::Seed),
        EndpointKind::Seed,
        now,
    );
    lemma_join_frame(r3.0, id, r3.1);
}

/// No pass works through a negative number of entries.
pub proof fn lemma_peers_count_nonneg(s: RegistryView, ids: Seq<u64>, now: u64)
    ensures
        spec_hydrate_peers_count(s, ids, now) >= 0,
    decreases ids.len(),
{
    if ids.len() > 0 {
        lemma_peers_count_nonneg(spec_chain_peers_pass(s, ids[0], now), ids.skip(1), now);
    }
}

/// Works through one chain's peers: upserts and links its persistent
/// peers, then its seeds. Fails — after changing nothing — when the chain
/// row does not exist.
pub fn insert_peers(reg: &mut Registry, chain_id: u64, now: u64) -> (r: Result<(), StoreError>)
    requires
        old(reg)@.wf(),
        old(reg).next_endpoint_id + spec_peers_pass_count(old(reg)@, chain_id, now) <= u64::MAX,
    ensures
        final(reg)@.wf(),
        final(reg)@ == spec_chain_peers_pass(old(reg)@, chain_id, now),
        r is Ok <==> has_chain_id(old(reg)@.chains, chain_id),
{
    let ghost s0 = reg@;
    let pids = insert_persistent_peers(reg, &chain_id, now);
    proof {
        lemma_insert_entries_frame(
            s0,
            chain_doc_entries(s0, chain_id, EndpointKind::Peer),
            EndpointKind::Peer,
            now,
        );
    }
    let ghost sa = reg@;
    let jr = join_chain_to_endpoints(reg, &chain_id, &pids);
    proof {
        lemma_join_frame(sa, chain_id, pids@);
        if !has_chain_id(s0.chains, chain_id) {
            assert(chain_doc_entries(s0, chain_id, EndpointKind::Peer) =~= Seq::<
                crate::peers::RawPeerView,
            >::empty());
            assert(reg@ == sa);
        }
    }
    let ghost sb = reg@;
    let sids = insert_seeds(reg, &chain_id, now);
    proof {
        lemma_insert_entries_frame(
            sb,
            chain_doc_entries(sb, chain_id, EndpointKind::Seed),
            EndpointKind::Seed,
            now,
        );
    }
    let ghost sc = reg@;
    let jr2 = join_chain_to_endpoints(reg, &chain_id, &sids);
    proof {
        lemma_join_frame(sc, chain_id, sids@);
        if !has_chain_id(s0.chains, chain_id) {
            assert(chain_doc_entries(sb, chain_id, EndpointKind::Seed) =~= Seq::<
                crate::peers::RawPeerView,
            >::empty());
            assert(reg@ == sc);
        }
        assert(reg@ == spec_chain_peers_pass(s0, chain_id, now));
    }
    match jr {
        Ok(_) => Ok(()),
        Err(e) => Err(e),
    }
}

/// Runs one full ingestion: upserts every import's chain row under the
/// given commit, works through every chain's peers, and prunes the chain
/// table down to the `keep` most recent commits. Returns the affected
/// chain row identifiers, in import order.
pub fn hydrate_chain_registry(
    reg: &mut Registry,
    batch: &Vec<ChainImport>,
    commit: &str,
    keep: u64,
    now: u64,
) -> (ids: Vec<u64>)
    requires
        old(reg)@.wf(),
        old(reg).next_chain_id + batch@.len() <= u64::MAX,
        spec_hydrate_chains(
            old(reg)@,
            batch.deep_view(),
            commit@,
            now,
        ).0.next_endpoint_id + spec_hydrate_peers_count(
            spec_hydrate_chains(old(reg)@, batch.deep_view(), commit@, now).0,
            spec_hydrate_chains(old(reg)@, batch.deep_view(), commit@, now).1,
            now,
        ) <= u64::MAX,
    ensures
        final(reg)@.wf(),
        final(reg)@ == spec_hydrate(old(reg)@, batch.deep_view(), commit@, keep, now),
        ids@ == spec_hydrate_chains(old(reg)@, batch.deep_view(), commit@, now).1,
{
    let ghost s0 = reg@;
    let ghost full = batch.deep_view();
    let mut ids: Vec<u64> = Vec::new();
    let mut i: usize = 0;
    proof {
        assert(full.skip(0) =~= full);
        assert(Seq::<u64>::empty() + spec_hydrate_chains(s0, full, commit@, now).1
            =~= spec_hydrate_chains(s0, full, commit@, now).1);
    }
    while i < batch.len()
        invariant
            i <= full.len(),
            batch.deep_view() == full,
            batch@.len() == full.len(),
            reg@.wf(),
            reg.next_chain_id + (full.len() - i) <= u64::MAX,
            spec_hydrate_chains(s0, full, commit@, now).0 == spec_hydrate_chains(
                reg@,
                full.skip(i as int),
                commit@,
                now,
            ).0,
            spec_hydrate_chains(s0, full, commit@, now).1 == ids@ + spec_hydrate_chains(
                reg@,
                full.skip(i as int),
                commit@,
                now,
            ).1,
        decreases full.len() - i,
    {
        let ghost pre = reg@;
        let ghost pre_ids = ids@;
        proof {
            assert(full.skip(i as int).len() == full.len() - i);
            assert(full.skip(i as int)[0] == full[i as int]);
            assert(full.skip(i as int).skip(1) =~= full.skip(i as int + 1));
            assert(full[i as int] == batch@[i as int].deep_view());
        }
        let item = &batch[i];
        let id = reg.upsert_chain(
            item.name.clone(),
            item.network,
            commit.to_owned(),
            item.doc.duplicate(),
            item.asset_data.clone(),
            now,
        );
        ids.push(id);
        proof {
            assert(ids@ =~= pre_ids + seq![id]);
            assert(spec_hydrate_chains(pre, full.skip(i as int), commit@, now).0
                == spec_hydrate_chains(reg@, full.skip(i as int + 1), commit@, now).0);
            assert(spec_hydrate_chains(pre, full.skip(i as int), commit@, now).1 == seq![id]
                + spec_hydrate_chains(reg@, full.skip(i as int + 1), commit@, now).1);
            assert(pre_ids + (seq![id] + spec_hydrate_chains(
                reg@,
                full.skip(i as int + 1),
                commit@,
                now,
            ).1) =~= ids@ + spec_hydrate_chains(reg@, full.skip(i as int + 1), commit@, now).1);
        }
        i = i + 1;
    }
    proof {
        assert(full.skip(full.len() as int) =~= Seq::<ChainImportView>::empty());
        assert(ids@ + Seq::<u64>::empty() =~= ids@);
    }
    let ghost s1 = reg@;
    let ghost allids = ids@;
    let mut j: usize = 0;
    proof {
        assert(allids.skip(0) =~= allids);
    }
    while j < ids.len()
        invariant
            j <= allids.len(),
            ids@ == allids,
            reg@.wf(),
            reg.next_endpoint_id + spec_hydrate_peers_count(reg@, allids.skip(j as int), now)
                <= u64::MAX,
            spec_hydrate_peers(s1, allids, now) == spec_hydrate_peers(
                reg@,
                allids.skip(j as int),
                now,
            ),
        decreases allids.len() - j,
    {
        let ghost pre = reg@;
        proof {
            assert(allids.skip(j as int)[0] == allids[j as int]);
            assert(allids.skip(j as int).skip(1) =~= allids.skip(j as int + 1));
            lemma_peers_count_nonneg(
                spec_chain_peers_pass(pre, allids[j as int], now),
                allids.skip(j as int + 1),
                now,
            );
        }
        let id = ids[j];
        let outcome = insert_peers(reg, id, now);
        proof {
            lemma_pass_frame(pre, id, now);
        }
        j = j + 1;
    }
    proof {
        assert(allids.skip(allids.len() as int) =~= Seq::<u64>::empty());
    }
    truncate_old_chains(reg, keep);
    ids
}

/// Whether a character is an ASCII hexadecimal digit.
pub open spec fn is_hex_char(c: char) -> bool {
    ||| 48 <= c as int && c as int <= 57
    ||| 97 <= c as int && c as int <= 102
    ||| 65 <= c as int && c as int <= 70
}

/// Whether a string is a plausible resolved commit: non-empty and all
/// hexadecimal digits.
pub open spec fn is_hex_commit(s: Seq<char>) -> bool {
    s.len() > 0 && forall|i: int| 0 <= i < s.len() ==> is_hex_char(#[trigger] s[i])
}

/// Decides whether a string is a plausible resolved commit hash.
pub fn commit_is_hex(s: &str) -> (r: bool)
    ensures
        r == is_hex_commit(s@),
{
    let n = s.unicode_len();
    if n == 0 {
        return false;
    }
    let mut i: usize = 0;
    while i < n
        invariant
            i <= n,
            n == s@.len(),
            forall|j: int| 0 <= j < i ==> is_hex_char(#[trigger] s@[j]),
        decreases n - i,
    {
        let c = s.get_char(i) as u32;
        let ok = (48 <= c && c <= 57) || (97 <= c && c <= 102) || (65 <= c && c <= 70);
        if !ok {
            proof {
                assert(!is_hex_char(s@[i as int]));
            }
            return false;
        }
        i = i + 1;
    }
    true
}

} // verus!
