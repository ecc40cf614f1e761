//! Parsing of chain documents. The JSON grammar itself is handled by
//! serde_json behind two trusted declarations whose results are named:
//! everything read out of a document — its `chain_id` field and its two
//! peer arrays — is a function of the text alone, collected into the plain
//! [`ChainDoc`] type that the rest of the registry works on.
use vstd::prelude::*;

use crate::peers::{duplicate_entries, RawPeer, RawPeerView};

verus! {

/// Whether a string is a well-formed JSON document, in the sense that
/// serde_json accepts it.
pub uninterp spec fn json_ok(s: Seq<char>) -> bool;

/// The `chain_id` string field of a chain document's text, when the text
/// has one.
pub uninterp spec fn chain_id_of(s: Seq<char>) -> Option<Seq<char>>;

/// The peer entries under `peers.<field>` of a chain document's text, in
/// document order.
pub uninterp spec fn peers_of(s: Seq<char>, field: Seq<char>) -> Seq<RawPeerView>;

/// Everything the registry reads out of a `chain.json` document: the raw
/// text (stored and served back as-is), the `chain_id` field, and the two
/// peer arrays.
#[derive(Debug, Clone)]
pub struct ChainDoc {
    pub raw: String,
    pub chain_id: Option<String>,
    pub seeds: Vec<RawPeer>,
    pub persistent_peers: Vec<RawPeer>,
}

/// The mathematical value of a [`ChainDoc`].
#[verifier::ext_equal]
pub struct ChainDocView {
    pub raw: Seq<char>,
    pub chain_id: Option<Seq<char>>,
    pub seeds: Seq<RawPeerView>,
    pub persistent_peers: Seq<RawPeerView>,
}

impl View for ChainDoc {
    type V = ChainDocView;

    open spec fn view(&self) -> ChainDocView {
        ChainDocView {
            raw: self.raw@,
            chain_id: self.chain_id.deep_view(),
            seeds: self.seeds.deep_view(),
            persistent_peers: self.persistent_peers.deep_view(),
        }
    }
}

/// The document a chain text parses to: the text itself, its `chain_id`
/// field, and its two peer arrays.
pub open spec fn spec_chain_doc_of(s: Seq<char>) -> ChainDocView {
    ChainDocView {
        raw: s,
        chain_id: chain_id_of(s),
        seeds: peers_of(s, "seeds"@),
        persistent_peers: peers_of(s, "persistent_peers"@),
    }
}

impl ChainDoc {
    /// An exact copy of this document.
    pub fn duplicate(&self) -> (r: ChainDoc)
        ensures
            r@ == self@,
    {
        let chain_id = match &self.chain_id {
            Some(s) => Some(s.clone()),
            None => None,
        };
        let r = ChainDoc {
            raw: self.raw.clone(),
            chain_id,
            seeds: duplicate_entries(&self.seeds),
            persistent_peers: duplicate_entries(&self.persistent_peers),
        };
        proof {
            assert(r@ =~= self@);
        }
        r
    }
}

/// Relies on serde_json::from_str::<Value> and Value::{get, as_array,
/// as_str}: the parse succeeds exactly on well-formed JSON, and the
/// `chain_id` field and the entries of the two peer arrays are functions
/// of the text alone. The raw text is kept unchanged in the result.
#[verifier::external_body]
pub fn parse_chain_doc(text: &str) -> (r: Option<ChainDoc>)
    ensures
        r is Some <==> json_ok(text@),
        r matches Some(doc) ==> doc@ == spec_chain_doc_of(text@) && doc@.raw == text@
            && doc@.chain_id == chain_id_of(text@) && doc@.seeds == peers_of(text@, "seeds"@)
            && doc@.persistent_peers == peers_of(text@, "persistent_peers"@),
{
    let v: serde_json::Value = serde_json::from_str(text).ok()?;
    let field = |e: &serde_json::Value, k: &str| e.get(k).and_then(|x| x.as_str()).map(str::to_owned);
    let list = |f: &str| {
        let arr = v.get("peers").and_then(|p| p.get(f)).and_then(|a| a.as_array());
        arr.map_or(vec![], |it| it.iter().map(|e| RawPeer {
            node_id: field(e, "id"), address: field(e, "address"), provider: field(e, "provider"),
        }).collect())
    };
    Some(ChainDoc {
        raw: text.to_owned(), chain_id: field(&v, "chain_id"),
        seeds: list("seeds"), persistent_peers: list("persistent_peers"),
    })
}

/// Relies on serde_json::from_str::<Value>: it accepts exactly the
/// well-formed JSON texts, as an asset list must be, and acceptance
/// depends on the text alone.
#[verifier::external_body]
pub fn json_is_valid(s: &str) -> (r: bool)
    ensures
        r == json_ok(s@),
{
    serde_json::from_str::<serde_json::Value>(s).is_ok()
}

} // verus!
