//! The service kind attached to an endpoint row.
use vstd::prelude::*;

verus! {

/// What service an endpoint address offers.
#[derive(Debug, Clone, Copy, PartialEq, Eq, Structural)]
pub enum EndpointKind {
    Peer,
    Seed,
    Rpc,
    Rest,
    Grpc,
}

impl EndpointKind {
    /// The field of a chain document's `peers` object that lists endpoints
    /// of this kind.
    pub fn as_field(&self) -> (r: &'static str)
        ensures
            self is Peer ==> r@ == "persistent_peers"@,
            self is Seed ==> r@ == "seeds"@,
            self is Rpc ==> r@ == "rpc"@,
            self is Rest ==> r@ == "rest"@,
            self is Grpc ==> r@ == "grpc"@,
    {
        match self {
            EndpointKind::Peer => "persistent_peers",
            EndpointKind::Seed => "seeds",
            EndpointKind::Rpc => "rpc",
            EndpointKind::Rest => "rest",
            EndpointKind::Grpc => "grpc",
        }
    }
}

/// One row of the endpoint table. The pair (address, kind) is unique across
/// the table; `provider` is refreshed on re-import, and `is_alive` together
/// with `updated_at` is written only by the liveness prober.
#[derive(Debug)]
pub struct Endpoint {
    pub id: u64,
    pub address: String,
    pub provider: String,
    pub kind: EndpointKind,
    pub is_alive: bool,
    pub created_at: u64,
    pub updated_at: u64,
}

/// The mathematical value of an [`Endpoint`] row.
#[verifier::ext_equal]
pub struct EndpointRowView {
    pub id: u64,
    pub address: Seq<char>,
    pub provider: Seq<char>,
    pub kind: EndpointKind,
    pub is_alive: bool,
    pub created_at: u64,
    pub updated_at: u64,
}

impl View for Endpoint {
    type V = EndpointRowView;

    open spec fn view(&self) -> EndpointRowView {
        EndpointRowView {
            id: self.id,
            address: self.address@,
            provider: self.provider@,
            kind: self.kind,
            is_alive: self.is_alive,
            created_at: self.created_at,
            updated_at: self.updated_at,
        }
    }
}

impl DeepView for Endpoint {
    type V = EndpointRowView;

    open spec fn deep_view(&self) -> EndpointRowView {
        self.view()
    }
}

} // verus!
