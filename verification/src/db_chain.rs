//! The chain table: one row per (name, network, commit), plus the network
//! label type used throughout the registry.
use vstd::prelude::*;

use crate::json::{ChainDoc, ChainDocView};
use crate::store::{has_chain_id, spec_upsert_chain, Link, Registry, RegistryView};
use crate::text::{eq_ignore_ascii_case, eq_ignore_ascii_case_seq, lower_code, str_eq};

verus! {

/// Which family of chains a row belongs to.
#[derive(Debug, Clone, Copy, PartialEq, Eq, Structural)]
pub enum Network {
    Mainnet,
    Testnet,
}

/// The fixed string stored for a network label.
pub open spec fn spec_network_str(n: Network) -> Seq<char> {
    match n {
        Network::Mainnet => "mainnet"@,
        Network::Testnet => "testnet"@,
    }
}

impl Network {
    /// The fixed string stored for this network label.
    pub fn as_str(&self) -> (r: &'static str)
        ensures
            r@ == spec_network_str(*self),
    {
        match self {
            Network::Mainnet => "mainnet",
            Network::Testnet => "testnet",
        }
    }

    /// Parses a network label, ignoring ASCII case. Any other label is
    /// rejected with a message.
    pub fn from_str(s: &str) -> (r: Result<Network, String>)
        ensures
            r is Ok <==> (eq_ignore_ascii_case_seq(s@, "mainnet"@) || eq_ignore_ascii_case_seq(
                s@,
                "testnet"@,
            )),
            eq_ignore_ascii_case_seq(s@, "mainnet"@) ==> r == Ok::<Network, String>(
                Network::Mainnet,
            ),
            eq_ignore_ascii_case_seq(s@, "testnet"@) ==> r == Ok::<Network, String>(
                Network::Testnet,
            ),
    {
        proof {
            reveal_strlit("mainnet");
            reveal_strlit("testnet");
            assert(lower_code("mainnet"@[0]) != lower_code("testnet"@[0]));
        }
        if eq_ignore_ascii_case(s, "mainnet") {
            Ok(Network::Mainnet)
        } else if eq_ignore_ascii_case(s, "testnet") {
            Ok(Network::Testnet)
        } else {
            Err("invalid network, must be mainnet or testnet".to_owned())
        }
    }
}

/// One row of the chain table. Rows are immutable once written; the pair
/// (name, network, commit) is unique across the table.
#[derive(Debug)]
pub struct Chain {
    pub id: u64,
    pub name: String,
    pub network: Network,
    pub commit: String,
    pub chain_data: ChainDoc,
    pub asset_data: String,
    pub created_at: u64,
}

/// The mathematical value of a [`Chain`] row.
#[verifier::ext_equal]
pub struct ChainRowView {
    pub id: u64,
    pub name: Seq<char>,
    pub network: Network,
    pub commit: Seq<char>,
    pub chain_data: ChainDocView,
    pub asset_data: Seq<char>,
    pub created_at: u64,
}

impl View for Chain {
    type V = ChainRowView;

    open spec fn view(&self) -> ChainRowView {
        ChainRowView {
            id: self.id,
            name: self.name@,
            network: self.network,
            commit: self.commit@,
            chain_data: self.chain_data@,
            asset_data: self.asset_data@,
            created_at: self.created_at,
        }
    }
}

impl DeepView for Chain {
    type V = ChainRowView;

    open spec fn deep_view(&self) -> ChainRowView {
        self.view()
    }
}

impl Chain {
    /// An exact copy of this row.
    pub fn duplicate(&self) -> (r: Chain)
        ensures
            r@ == self@,
    {
        let r = Chain {
            id: self.id,
            name: self.name.clone(),
            network: self.network,
            commit: self.commit.clone(),
            chain_data: self.chain_data.duplicate(),
            asset_data: self.asset_data.clone(),
            created_at: self.created_at,
        };
        proof {
            assert(r@ =~= self@);
        }
        r
    }
}

/// Why a single chain could not be imported. Either failure skips that
/// chain and leaves the store untouched.
#[derive(Debug, Clone, Copy, PartialEq, Eq, Structural)]
pub enum ImportError {
    /// The chain's `chain.json` text is not well-formed JSON.
    InvalidChainJson,
    /// The chain's `assetlist.json` text is not well-formed JSON.
    InvalidAssetJson,
}

/// The asset list text that an import stores: the text given, or the empty
/// object for a chain without one.
pub open spec fn spec_asset_text(assets_json: Option<Seq<char>>) -> Seq<char> {
    match assets_json {
        Some(a) => a,
        None => "{}"@,
    }
}

/// Imports one chain: parses its `chain.json` text and upserts a chain row
/// holding the parsed document and the asset list text. A chain whose
/// `chain.json` or `assetlist.json` does not parse is rejected and the
/// store left unchanged; a missing asset list is stored as the empty
/// object.
pub fn insert_chain(
    reg: &mut Registry,
    name: &str,
    network: Network,
    commit: &str,
    chain_json: &str,
    assets_json: Option<&str>,
    now: u64,
) -> (r: Result<u64, ImportError>)
    requires
        old(reg)@.wf(),
        old(reg).next_chain_id < u64::MAX,
    ensures
        final(reg)@.wf(),
        r == Err::<u64, ImportError>(ImportError::InvalidChainJson) <==> !crate::json::json_ok(
            chain_json@,
        ),
        r == Err::<u64, ImportError>(ImportError::InvalidAssetJson) <==> (crate::json::json_ok(
            chain_json@,
        ) && !crate::json::json_ok(spec_asset_text(assets_json.deep_view()))),
        r is Err ==> final(reg)@ == old(reg)@,
        r matches Ok(id) ==> final(reg)@ == spec_upsert_chain(
            old(reg)@,
            name@,
            network,
            commit@,
            crate::json::spec_chain_doc_of(chain_json@),
            spec_asset_text(assets_json.deep_view()),
            now,
        ).0 && id == spec_upsert_chain(
            old(reg)@,
            name@,
            network,
            commit@,
            crate::json::spec_chain_doc_of(chain_json@),
            spec_asset_text(assets_json.deep_view()),
            now,
        ).1,
{
    let doc = match crate::json::parse_chain_doc(chain_json) {
        Some(d) => d,
        None => {
            return Err(ImportError::InvalidChainJson);
        },
    };
    let asset_text = match assets_json {
        Some(a) => a.to_owned(),
        None => "{}".to_owned(),
    };
    if !crate::json::json_is_valid(asset_text.as_str()) {
        return Err(ImportError::InvalidAssetJson);
    }
    proof {
        assert(doc@ == crate::json::spec_chain_doc_of(chain_json@));
    }
    let id = reg.upsert_chain(
        name.to_owned(),
        network,
        commit.to_owned(),
        doc,
        asset_text,
        now,
    );
    Ok(id)
}

impl Chain {
    /// The most recent chain row for a (name, network) pair: among all rows
    /// carrying the pair, one with the latest `created_at`. Fails when the
    /// pair has no row at all.
    pub fn from_name(reg: &Registry, name: &str, network: &Network) -> (r: Result<
        Chain,
        crate::store::StoreError,
    >)
        ensures
            r is Err <==> (r == Err::<Chain, crate::store::StoreError>(
                crate::store::StoreError::RowNotFound,
            ) && !(exists|i: int|
                0 <= i < reg@.chains.len() && (#[trigger] reg@.chains[i]).name == name@
                    && reg@.chains[i].network == *network)),
            r matches Ok(c) ==> (exists|i: int|
                0 <= i < reg@.chains.len() && (#[trigger] reg@.chains[i]).name == name@
                    && reg@.chains[i].network == *network && c@ == reg@.chains[i]) && (forall|
                j: int,
            |
                0 <= j < reg@.chains.len() && (#[trigger] reg@.chains[j]).name == name@
                    && reg@.chains[j].network == *network ==> reg@.chains[j].created_at
                    <= c@.created_at),
    {
        let mut best: Option<usize> = None;
        let mut i: usize = 0;
        while i < reg.chains.len()
            invariant
                i <= reg@.chains.len(),
                reg@.chains.len() == reg.chains.len(),
                match best {
                    Some(b) => b < i && reg@.chains[b as int].name == name@
                        && reg@.chains[b as int].network == *network && (forall|j: int|
                        0 <= j < i && (#[trigger] reg@.chains[j]).name == name@
                            && reg@.chains[j].network == *network ==> reg@.chains[j].created_at
                            <= reg@.chains[b as int].created_at),
                    None => forall|j: int|
                        0 <= j < i ==> !((#[trigger] reg@.chains[j]).name == name@
                            && reg@.chains[j].network == *network),
                },
            decreases reg@.chains.len() - i,
        {
            if str_eq(reg.chains[i].name.as_str(), name) && reg.chains[i].network == *network {
                best = match best {
                    Some(b) => if reg.chains[i].created_at > reg.chains[b].created_at {
                        Some(i)
                    } else {
                        Some(b)
                    },
                    None => Some(i),
                };
            }
            i = i + 1;
        }
        match best {
            Some(b) => Ok(reg.chains[b].duplicate()),
            None => Err(crate::store::StoreError::RowNotFound),
        }
    }
}

/// The latest creation time among the rows of the first `n` that carry the
/// given commit; -1 when none does.
pub open spec fn commit_max_prefix(chains: Seq<ChainRowView>, commit: Seq<char>, n: int) -> int
    decreases n,
{
    if n <= 0 {
        -1
    } else {
        let m = commit_max_prefix(chains, commit, n - 1);
        if chains[n - 1].commit == commit && chains[n - 1].created_at as int > m {
            chains[n - 1].created_at as int
        } else {
            m
        }
    }
}

/// The latest creation time among all rows carrying the given commit; -1
/// when the commit is absent.
pub open spec fn commit_max_at(chains: Seq<ChainRowView>, commit: Seq<char>) -> int {
    commit_max_prefix(chains, commit, chains.len() as int)
}

/// Whether row `i` is the first row of the table carrying its commit.
pub open spec fn first_commit_occurrence(chains: Seq<ChainRowView>, i: int) -> bool {
    forall|j: int| 0 <= j < i ==> (#[trigger] chains[j]).commit != chains[i].commit
}

/// How many distinct commits among the first `n` rows were last seen
/// strictly later than the given commit.
pub open spec fn newer_commit_prefix(chains: Seq<ChainRowView>, commit: Seq<char>, n: int) -> int
    decreases n,
{
    if n <= 0 {
        0
    } else {
        newer_commit_prefix(chains, commit, n - 1) + if first_commit_occurrence(chains, n - 1)
            && commit_max_at(chains, chains[n - 1].commit) > commit_max_at(chains, commit) {
            1int
        } else {
            0int
        }
    }
}

/// The commit's rank: how many distinct commits of the table were last
/// seen strictly later than it.
pub open spec fn newer_commit_count(chains: Seq<ChainRowView>, commit: Seq<char>) -> int {
    newer_commit_prefix(chains, commit, chains.len() as int)
}

/// The latest creation time among rows with the given commit, if any.
fn commit_max(chains: &Vec<Chain>, commit: &str) -> (m: Option<u64>)
    ensures
        match m {
            Some(v) => commit_max_at(chains.deep_view(), commit@) == v as int,
            None => commit_max_at(chains.deep_view(), commit@) == -1,
        },
{
    let mut m: Option<u64> = None;
    let mut i: usize = 0;
    while i < chains.len()
        invariant
            i <= chains@.len(),
            chains.deep_view().len() == chains@.len(),
            match m {
                Some(v) => commit_max_prefix(chains.deep_view(), commit@, i as int) == v as int,
                None => commit_max_prefix(chains.deep_view(), commit@, i as int) == -1,
            },
        decreases chains@.len() - i,
    {
        if str_eq(chains[i].commit.as_str(), commit) {
            let c = chains[i].created_at;
            m = match m {
                Some(v) => if c > v {
                    Some(c)
                } else {
                    Some(v)
                },
                None => Some(c),
            };
        }
        i = i + 1;
    }
    m
}

/// Whether the commits of two rows at the given creation times rank the
/// first strictly newer than the second.
fn max_newer(a: &Option<u64>, b: &Option<u64>) -> (r: bool)
    ensures
        r == {
            let av = match *a {
                Some(v) => v as int,
                None => -1,
            };
            let bv = match *b {
                Some(v) => v as int,
                None => -1,
            };
            av > bv
        },
{
    match (a, b) {
        (Some(x), Some(y)) => *x > *y,
        (Some(_), None) => true,
        _ => false,
    }
}

/// Whether row `i` is the first row of the table carrying its commit.
fn is_first_occurrence(chains: &Vec<Chain>, i: usize) -> (r: bool)
    requires
        i < chains@.len(),
    ensures
        r == first_commit_occurrence(chains.deep_view(), i as int),
{
    let mut j: usize = 0;
    while j < i
        invariant
            j <= i,
            i < chains@.len(),
            chains.deep_view().len() == chains@.len(),
            forall|x: int|
                0 <= x < j ==> (#[trigger] chains.deep_view()[x]).commit != chains.deep_view()[i as int].commit,
        decreases i - j,
    {
        if str_eq(chains[j].commit.as_str(), chains[i].commit.as_str()) {
            proof {
                assert(chains.deep_view()[j as int].commit == chains.deep_view()[i as int].commit);
            }
            return false;
        }
        j = j + 1;
    }
    true
}

/// How many distinct commits of the table were last seen strictly later
/// than the given commit.
fn count_newer_commits(chains: &Vec<Chain>, commit: &str) -> (c: usize)
    ensures
        c as int == newer_commit_count(chains.deep_view(), commit@),
{
    let target = commit_max(chains, commit);
    let mut c: usize = 0;
    let mut i: usize = 0;
    while i < chains.len()
        invariant
            i <= chains@.len(),
            chains.deep_view().len() == chains@.len(),
            c <= i,
            c as int == newer_commit_prefix(chains.deep_view(), commit@, i as int),
            match target {
                Some(v) => commit_max_at(chains.deep_view(), commit@) == v as int,
                None => commit_max_at(chains.deep_view(), commit@) == -1,
            },
        decreases chains@.len() - i,
    {
        let first = is_first_occurrence(chains, i);
        if first {
            let own = commit_max(chains, chains[i].commit.as_str());
            if max_newer(&own, &target) {
                c = c + 1;
            }
        }
        i = i + 1;
    }
    c
}

/// The names of the first `n` rows carrying the given network label and
/// commit, in table order.
pub open spec fn chain_names_prefix(
    chains: Seq<ChainRowView>,
    network: Seq<char>,
    commit: Seq<char>,
    n: int,
) -> Seq<Seq<char>>
    decreases n,
{
    if n <= 0 {
        Seq::empty()
    } else {
        let rest = chain_names_prefix(chains, network, commit, n - 1);
        if spec_network_str(chains[n - 1].network) == network && chains[n - 1].commit == commit {
            rest.push(chains[n - 1].name)
        } else {
            rest
        }
    }
}

/// The chain names grouped under a network's single most recent commit.
#[derive(Debug)]
pub struct ChainList {
    pub commit: String,
    pub created_at: u64,
    pub names: Vec<String>,
}

/// Inserts a name into a name-sorted vector, keeping it sorted; the held
/// names gain exactly the inserted one.
fn sorted_insert(v: &mut Vec<String>, s: String)
    requires
        vstd::relations::sorted_by(old(v).deep_view(), crate::text::lex_leq()),
    ensures
        vstd::relations::sorted_by(final(v).deep_view(), crate::text::lex_leq()),
        final(v).deep_view().to_multiset() == old(v).deep_view().to_multiset().insert(s@),
{
    let ghost pre = v.deep_view();
    let mut p: usize = 0;
    while p < v.len() && crate::text::str_le(&v[p], s.as_str())
        invariant
            p <= v@.len(),
            v.deep_view() == pre,
            v.deep_view().len() == v@.len(),
            forall|x: int| 0 <= x < p ==> crate::text::lex_le(#[trigger] pre[x], s@),
        decreases v@.len() - p,
    {
        p = p + 1;
    }
    v.insert(p, s);
    proof {
        let leq = crate::text::lex_leq();
        let w = v.deep_view();
        pre.insert_ensures(p as int, s@);
        assert forall|k: int| 0 <= k < w.len() implies w[k] == pre.insert(p as int, s@)[k] by {
            assert(w[k] == v@[k].deep_view());
        }
        assert(w =~= pre.insert(p as int, s@));
        if p < pre.len() {
            crate::text::lemma_lex_le_total(pre[p as int], s@);
            assert(crate::text::lex_le(s@, pre[p as int]));
        }
        assert forall|i: int, j: int| 0 <= i < j < w.len() implies #[trigger] leq(w[i], w[j]) by {
            if j < p {
                assert(leq(pre[i], pre[j]));
            } else if j == p {
                assert(crate::text::lex_le(pre[i], s@));
            } else if i == p {
                if j - 1 > p {
                    assert(leq(pre[p as int], pre[j - 1]));
                    crate::text::lemma_lex_le_transitive(s@, pre[p as int], pre[j - 1]);
                }
                assert(crate::text::lex_le(s@, pre[j - 1]));
            } else if i < p {
                assert(leq(pre[i], pre[j - 1]));
            } else {
                assert(leq(pre[i - 1], pre[j - 1]));
            }
        }
        assert(vstd::relations::sorted_by(w, leq));
        assert(w.remove(p as int) =~= pre) by {
            w.remove_ensures(p as int);
        }
        broadcast use vstd::seq_lib::group_to_multiset_ensures;
        broadcast use vstd::multiset::group_multiset_axioms;

        assert(pre.to_multiset() =~= w.to_multiset().remove(s@));
        assert(w.to_multiset().contains(s@)) by {
            assert(w[p as int] == s@);
        }
        assert(w.to_multiset() =~= pre.to_multiset().insert(s@));
    }
}

/// The chain names of a network, grouped under the network's single most
/// recently seen commit, sorted ascending by name, together with that
/// commit and the time it was last seen. Fails when the network has no
/// rows at all.
pub fn recent_chains(reg: &Registry, network: &str) -> (r: Result<ChainList, crate::store::StoreError>)
    ensures
        r is Err <==> (r == Err::<ChainList, crate::store::StoreError>(
            crate::store::StoreError::RowNotFound,
        ) && !(exists|i: int|
            0 <= i < reg@.chains.len() && spec_network_str(
                (#[trigger] reg@.chains[i]).network,
            ) == network@)),
        r matches Ok(list) ==> (exists|i: int|
            0 <= i < reg@.chains.len() && spec_network_str((#[trigger] reg@.chains[i]).network)
                == network@ && list.commit@ == reg@.chains[i].commit && list.created_at
                == reg@.chains[i].created_at) && (forall|j: int|
            0 <= j < reg@.chains.len() && spec_network_str((#[trigger] reg@.chains[j]).network)
                == network@ ==> reg@.chains[j].created_at <= list.created_at)
            && list.names.deep_view() == chain_names_prefix(
            reg@.chains,
            network@,
            list.commit@,
            reg@.chains.len() as int,
        ).sort_by(crate::text::lex_leq()),
{
    let mut best: Option<usize> = None;
    let mut i: usize = 0;
    while i < reg.chains.len()
        invariant
            i <= reg@.chains.len(),
            reg@.chains.len() == reg.chains.len(),
            match best {
                Some(b) => b < i && spec_network_str(reg@.chains[b as int].network) == network@ && (
                forall|j: int|
                    0 <= j < i && spec_network_str((#[trigger] reg@.chains[j]).network) == network@
                        ==> reg@.chains[j].created_at <= reg@.chains[b as int].created_at),
                None => forall|j: int|
                    0 <= j < i ==> spec_network_str((#[trigger] reg@.chains[j]).network)
                        != network@,
            },
        decreases reg@.chains.len() - i,
    {
        if str_eq(reg.chains[i].network.as_str(), network) {
            best = match best {
                Some(b) => if reg.chains[i].created_at > reg.chains[b].created_at {
                    Some(i)
                } else {
                    Some(b)
                },
                None => Some(i),
            };
        }
        i = i + 1;
    }
    let b = match best {
        Some(b) => b,
        None => {
            return Err(crate::store::StoreError::RowNotFound);
        },
    };
    let mut names: Vec<String> = Vec::new();
    let mut j: usize = 0;
    proof {
        assert(names.deep_view() =~= chain_names_prefix(
            reg@.chains,
            network@,
            reg@.chains[b as int].commit,
            0,
        ));
    }
    while j < reg.chains.len()
        invariant
            j <= reg@.chains.len(),
            reg@.chains.len() == reg.chains.len(),
            b < reg@.chains.len(),
            spec_network_str(reg@.chains[b as int].network) == network@,
            vstd::relations::sorted_by(names.deep_view(), crate::text::lex_leq()),
            names.deep_view().to_multiset() == chain_names_prefix(
                reg@.chains,
                network@,
                reg@.chains[b as int].commit,
                j as int,
            ).to_multiset(),
        decreases reg@.chains.len() - j,
    {
        proof {
            broadcast use vstd::seq_lib::group_to_multiset_ensures;

        }
        if str_eq(reg.chains[j].network.as_str(), reg.chains[b].network.as_str()) && str_eq(
            reg.chains[j].commit.as_str(),
            reg.chains[b].commit.as_str(),
        ) {
            sorted_insert(&mut names, reg.chains[j].name.clone());
        }
        j = j + 1;
    }
    let list = ChainList {
        commit: reg.chains[b].commit.clone(),
        created_at: reg.chains[b].created_at,
        names,
    };
    proof {
        let leq = crate::text::lex_leq();
        let fin = chain_names_prefix(
            reg@.chains,
            network@,
            reg@.chains[b as int].commit,
            reg@.chains.len() as int,
        );
        crate::text::lemma_lex_total_ordering();
        fin.lemma_sort_by_ensures(leq);
        vstd::seq_lib::lemma_sorted_unique(list.names.deep_view(), fin.sort_by(leq), leq);
        assert(list.names.deep_view() =~= fin.sort_by(leq));
    }
    Ok(list)
}

/// The chain rows among the first `n` whose commit ranks within the `keep`
/// most recently seen distinct commits, in table order.
pub open spec fn kept_chains_prefix(chains: Seq<ChainRowView>, keep: u64, n: int) -> Seq<
    ChainRowView,
>
    decreases n,
{
    if n <= 0 {
        Seq::empty()
    } else {
        let rest = kept_chains_prefix(chains, keep, n - 1);
        if newer_commit_count(chains, chains[n - 1].commit) < keep {
            rest.push(chains[n - 1])
        } else {
            rest
        }
    }
}

/// The association rows among the first `n` whose chain row survives, in
/// table order.
pub open spec fn kept_links_prefix(links: Seq<Link>, kept: Seq<ChainRowView>, n: int) -> Seq<Link>
    decreases n,
{
    if n <= 0 {
        Seq::empty()
    } else {
        let rest = kept_links_prefix(links, kept, n - 1);
        if has_chain_id(kept, links[n - 1].chain_id) {
            rest.push(links[n - 1])
        } else {
            rest
        }
    }
}

/// The store after pruning: only chain rows whose commit ranks within the
/// `keep` most recently seen distinct commits remain, and association rows
/// of pruned chains go with them. Endpoint rows are never pruned.
pub open spec fn spec_truncate(s: RegistryView, keep: u64) -> RegistryView {
    let kc = kept_chains_prefix(s.chains, keep, s.chains.len() as int);
    RegistryView { chains: kc, links: kept_links_prefix(s.links, kc, s.links.len() as int), ..s }
}

/// Every surviving chain row is a row of the original table, and any two
/// survivors come from two original rows in the same order.
pub(crate) proof fn lemma_kept_chains_embed(chains: Seq<ChainRowView>, keep: u64, n: int)
    requires
        0 <= n <= chains.len(),
    ensures
        forall|x: int|
            0 <= x < kept_chains_prefix(chains, keep, n).len() ==> exists|i: int|
                0 <= i < n && #[trigger] kept_chains_prefix(chains, keep, n)[x] == chains[i],
        forall|x: int, y: int|
            0 <= x < y < kept_chains_prefix(chains, keep, n).len() ==> exists|i: int, j: int|
                0 <= i < j < n && kept_chains_prefix(chains, keep, n)[x] == chains[i] && (
                #[trigger] kept_chains_prefix(chains, keep, n)[x],
                #[trigger] kept_chains_prefix(chains, keep, n)[y],
                ) == (chains[i], chains[j]),
    decreases n,
{
    if n > 0 {
        lemma_kept_chains_embed(chains, keep, n - 1);
        let rest = kept_chains_prefix(chains, keep, n - 1);
        let cur = kept_chains_prefix(chains, keep, n);
        assert forall|x: int| 0 <= x < cur.len() implies exists|i: int|
            0 <= i < n && #[trigger] cur[x] == chains[i] by {
            if x < rest.len() {
                let i = choose|i: int| 0 <= i < n - 1 && rest[x] == chains[i];
                assert(cur[x] == chains[i]);
            } else {
                assert(cur[x] == chains[n - 1]);
            }
        }
        assert forall|x: int, y: int| 0 <= x < y < cur.len() implies exists|i: int, j: int|
            0 <= i < j < n && cur[x] == chains[i] && (#[trigger] cur[x], #[trigger] cur[y]) == (
            chains[i],
            chains[j],
        ) by {
            if y < rest.len() {
                let (i, j) = choose|i: int, j: int|
                    0 <= i < j < n - 1 && rest[x] == chains[i] && (rest[x], rest[y]) == (
                    chains[i],
                    chains[j],
                    );
                assert(0 <= i < j < n && cur[x] == chains[i] && (cur[x], cur[y]) == (
                    chains[i],
                    chains[j],
                ));
            } else {
                let i = choose|i: int| 0 <= i < n - 1 && rest[x] == chains[i];
                assert(0 <= i < n - 1 && cur[x] == chains[i] && (cur[x], cur[y]) == (
                    chains[i],
                    chains[n - 1],
                ));
            }
        }
    }
}

/// Every surviving association row is a row of the original table whose
/// chain survives, and any two survivors come from two original rows in
/// the same order.
proof fn lemma_kept_links_embed(links: Seq<Link>, kept: Seq<ChainRowView>, n: int)
    requires
        0 <= n <= links.len(),
    ensures
        forall|x: int|
            0 <= x < kept_links_prefix(links, kept, n).len() ==> exists|i: int|
                0 <= i < n && #[trigger] kept_links_prefix(links, kept, n)[x] == links[i],
        forall|x: int|
            0 <= x < kept_links_prefix(links, kept, n).len() ==> has_chain_id(
                kept,
                (#[trigger] kept_links_prefix(links, kept, n)[x]).chain_id,
            ),
        forall|x: int, y: int|
            0 <= x < y < kept_links_prefix(links, kept, n).len() ==> exists|i: int, j: int|
                0 <= i < j < n && (
                #[trigger] kept_links_prefix(links, kept, n)[x],
                #[trigger] kept_links_prefix(links, kept, n)[y],
                ) == (links[i], links[j]),
    decreases n,
{
    if n > 0 {
        lemma_kept_links_embed(links, kept, n - 1);
        let rest = kept_links_prefix(links, kept, n - 1);
        let cur = kept_links_prefix(links, kept, n);
        assert forall|x: int| 0 <= x < cur.len() implies exists|i: int|
            0 <= i < n && #[trigger] cur[x] == links[i] by {
            if x < rest.len() {
                let i = choose|i: int| 0 <= i < n - 1 && rest[x] == links[i];
                assert(cur[x] == links[i]);
            } else {
                assert(cur[x] == links[n - 1]);
            }
        }
        assert forall|x: int, y: int| 0 <= x < y < cur.len() implies exists|i: int, j: int|
            0 <= i < j < n && (#[trigger] cur[x], #[trigger] cur[y]) == (links[i], links[j]) by {
            if y < rest.len() {
                let (i, j) = choose|i: int, j: int|
                    0 <= i < j < n - 1 && (rest[x], rest[y]) == (links[i], links[j]);
                assert(0 <= i < j < n && (cur[x], cur[y]) == (links[i], links[j]));
            } else {
                let i = choose|i: int| 0 <= i < n - 1 && rest[x] == links[i];
                assert(0 <= i < n - 1 && (cur[x], cur[y]) == (links[i], links[n - 1]));
            }
        }
    }
}

/// Whether some row of a chain table vector has the given row identifier.
fn chain_id_in(chains: &Vec<Chain>, id: u64) -> (r: bool)
    ensures
        r == has_chain_id(chains.deep_view(), id),
{
    let mut i: usize = 0;
    while i < chains.len()
        invariant
            i <= chains@.len(),
            chains.deep_view().len() == chains@.len(),
            forall|j: int| 0 <= j < i ==> (#[trigger] chains.deep_view()[j]).id != id,
        decreases chains@.len() - i,
    {
        if chains[i].id == id {
            proof {
                assert(chains.deep_view()[i as int].id == id);
            }
            return true;
        }
        i = i + 1;
    }
    false
}

/// Prunes the chain table down to the `keep` most recently seen distinct
/// commits, ranked by the latest `created_at` each commit was seen with,
/// and drops the association rows of pruned chains. Endpoint rows stay.
pub fn truncate_old_chains(reg: &mut Registry, keep: u64)
    requires
        old(reg)@.wf(),
    ensures
        final(reg)@.wf(),
        final(reg)@ == spec_truncate(old(reg)@, keep),
{
    let ghost s0 = reg@;
    let mut kept: Vec<Chain> = Vec::new();
    let mut i: usize = 0;
    while i < reg.chains.len()
        invariant
            i <= reg@.chains.len(),
            reg@ == s0,
            reg@.chains.len() == reg.chains.len(),
            kept@.len() == kept_chains_prefix(s0.chains, keep, i as int).len(),
            forall|j: int|
                0 <= j < kept@.len() ==> (#[trigger] kept@[j]).deep_view() == kept_chains_prefix(
                    s0.chains,
                    keep,
                    i as int,
                )[j],
        decreases reg@.chains.len() - i,
    {
        let c = count_newer_commits(&reg.chains, reg.chains[i].commit.as_str());
        if (c as u64) < keep {
            kept.push(reg.chains[i].duplicate());
        }
        i = i + 1;
    }
    let ghost kc = kept_chains_prefix(s0.chains, keep, s0.chains.len() as int);
    proof {
        assert forall|j: int| 0 <= j < kept.deep_view().len() implies kept.deep_view()[j]
            == kc[j] by {
            assert(kept@[j].deep_view() == kc[j]);
        }
        assert(kept.deep_view() =~= kc);
    }
    let mut klinks: Vec<Link> = Vec::new();
    let mut x: usize = 0;
    while x < reg.links.len()
        invariant
            x <= reg@.links.len(),
            reg@ == s0,
            reg@.links.len() == reg.links.len(),
            kept.deep_view() == kc,
            klinks@ == kept_links_prefix(s0.links, kc, x as int),
        decreases reg@.links.len() - x,
    {
        let l = reg.links[x];
        if chain_id_in(&kept, l.chain_id) {
            klinks.push(l);
        }
        x = x + 1;
    }
    reg.chains = kept;
    reg.links = klinks;
    proof {
        assert(reg@ =~= spec_truncate(s0, keep));
        let n = s0.chains.len() as int;
        lemma_kept_chains_embed(s0.chains, keep, n);
        assert forall|a: int|
            0 <= a < reg@.chains.len() implies 1 <= (#[trigger] reg@.chains[a]).id
            < reg@.next_chain_id by {
            let i0 = choose|i0: int| 0 <= i0 < n && kc[a] == s0.chains[i0];
            assert(1 <= s0.chains[i0].id < s0.next_chain_id);
        }
        assert forall|a: int, b: int|
            0 <= a < b < reg@.chains.len() implies (#[trigger] reg@.chains[a]).id != (
        #[trigger] reg@.chains[b]).id by {
            let (i0, j0) = choose|i0: int, j0: int|
                0 <= i0 < j0 < n && kc[a] == s0.chains[i0] && (kc[a], kc[b]) == (
                s0.chains[i0],
                s0.chains[j0],
                );
            assert(s0.chains[i0].id != s0.chains[j0].id);
        }
        assert forall|a: int, b: int|
            0 <= a < b < reg@.chains.len() implies !crate::store::chain_key_matches(
            #[trigger] reg@.chains[a],
            (#[trigger] reg@.chains[b]).name,
            reg@.chains[b].network,
            reg@.chains[b].commit,
        ) by {
            let (i0, j0) = choose|i0: int, j0: int|
                0 <= i0 < j0 < n && kc[a] == s0.chains[i0] && (kc[a], kc[b]) == (
                s0.chains[i0],
                s0.chains[j0],
                );
            assert(!crate::store::chain_key_matches(
                s0.chains[i0],
                s0.chains[j0].name,
                s0.chains[j0].network,
                s0.chains[j0].commit,
            ));
        }
        assert(reg@.ids_ok());
        assert(reg@.keys_ok());
        let m = s0.links.len() as int;
        lemma_kept_links_embed(s0.links, kc, m);
        assert forall|a: int| 0 <= a < reg@.links.len() implies has_chain_id(
            reg@.chains,
            (#[trigger] reg@.links[a]).chain_id,
        ) && crate::store::has_endpoint_id(reg@.endpoints, reg@.links[a].endpoint_id) by {
            let i0 = choose|i0: int| 0 <= i0 < m && reg@.links[a] == s0.links[i0];
            assert(crate::store::has_endpoint_id(s0.endpoints, s0.links[i0].endpoint_id));
        }
        assert forall|a: int, b: int|
            0 <= a < b < reg@.links.len() implies #[trigger] reg@.links[a]
            != #[trigger] reg@.links[b] by {
            let (i0, j0) = choose|i0: int, j0: int|
                0 <= i0 < j0 < m && (reg@.links[a], reg@.links[b]) == (s0.links[i0], s0.links[j0]);
            assert(s0.links[i0] != s0.links[j0]);
        }
        assert(reg@.wf());
    }
}

} // verus!
