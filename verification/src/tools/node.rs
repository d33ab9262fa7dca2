//! Node identifiers and the endpoints that belong to them.

use crate::text;
use rand::RngExt;
use vstd::prelude::*;

verus! {

/// An IPN node: the allocator and the number that it assigned.
#[derive(Debug, Clone, Copy, PartialEq, Eq, Structural)]
pub struct IpnNodeId {
    /// The allocator that assigned the node number.
    pub allocator_id: u32,
    /// The node number.
    pub node_number: u32,
}

/// The identifier of a node.
#[derive(Debug, PartialEq, Eq)]
pub enum NodeId {
    /// A node of the IPN scheme.
    Ipn(IpnNodeId),
    /// A node of the DTN scheme, by its name.
    Dtn(String),
    /// The node itself.
    LocalNode,
}

/// An endpoint: a service of a node.
#[derive(Debug, PartialEq, Eq)]
pub enum Eid {
    /// A service of an IPN node, by its number.
    Ipn {
        /// The node.
        fqnn: IpnNodeId,
        /// The service number.
        service_number: u32,
    },
    /// A service of a DTN node, by its name.
    Dtn {
        /// The name of the node.
        node_name: String,
        /// The name of the service.
        service_name: String,
    },
    /// A service of the node itself.
    LocalNode(u32),
}

/// A node identifier, with the name as a sequence.
#[verifier::ext_equal]
pub enum NodeIdView {
    Ipn(IpnNodeId),
    Dtn(Seq<char>),
    LocalNode,
}

/// An endpoint, with the names as sequences.
#[verifier::ext_equal]
pub enum EidView {
    Ipn { fqnn: IpnNodeId, service_number: u32 },
    Dtn { node_name: Seq<char>, service_name: Seq<char> },
    LocalNode(u32),
}

impl View for NodeId {
    type V = NodeIdView;

    open spec fn view(&self) -> NodeIdView {
        match *self {
            NodeId::Ipn(fqnn) => NodeIdView::Ipn(fqnn),
            NodeId::Dtn(name) => NodeIdView::Dtn(name@),
            NodeId::LocalNode => NodeIdView::LocalNode,
        }
    }
}

impl View for Eid {
    type V = EidView;

    open spec fn view(&self) -> EidView {
        match *self {
            Eid::Ipn { fqnn, service_number } => EidView::Ipn { fqnn, service_number },
            Eid::Dtn { node_name, service_name } => EidView::Dtn {
                node_name: node_name@,
                service_name: service_name@,
            },
            Eid::LocalNode(service_number) => EidView::LocalNode(service_number),
        }
    }
}

impl Clone for Eid {
    fn clone(&self) -> (r: Self)
        ensures
            r@ == self@,
    {
        match self {
            Eid::Ipn { fqnn, service_number } => Eid::Ipn {
                fqnn: *fqnn,
                service_number: *service_number,
            },
            Eid::Dtn { node_name, service_name } => Eid::Dtn {
                node_name: node_name.clone(),
                service_name: service_name.clone(),
            },
            Eid::LocalNode(service_number) => Eid::LocalNode(*service_number),
        }
    }
}

/// The endpoint of the service with the given number on a node. The services of
/// a DTN node are named `svc-` and the number.
pub open spec fn service_of(node: NodeIdView, service_number: u32) -> EidView {
    match node {
        NodeIdView::Ipn(fqnn) => EidView::Ipn { fqnn, service_number },
        NodeIdView::Dtn(node_name) => EidView::Dtn {
            node_name,
            service_name: "svc-"@ + text::decimal(service_number as nat),
        },
        NodeIdView::LocalNode => EidView::LocalNode(service_number),
    }
}

/// Convert a NodeId to an EID with the given service number.
///
/// Used to construct the Via target for the default route.
pub fn node_id_to_service_eid(node_id: &NodeId, service_number: u32) -> (r: Eid)
    ensures
        r@ == service_of(node_id@, service_number),
{
    match node_id {
        NodeId::Ipn(fqnn) => Eid::Ipn { fqnn: *fqnn, service_number },
        NodeId::Dtn(node_name) => {
            let number = text::decimal_string(service_number as u64);
            Eid::Dtn {
                node_name: node_name.clone(),
                service_name: text::join("svc-", number.as_str()),
            }
        },
        NodeId::LocalNode => Eid::LocalNode(service_number),
    }
}

/// The source endpoint of the bundles that a node sends, but for its
/// administrative endpoint.
pub open spec fn source_of(node: NodeIdView) -> Option<EidView> {
    match node {
        NodeIdView::Ipn(fqnn) => Some(EidView::Ipn { fqnn, service_number: 1 }),
        _ => None,
    }
}

/// The source endpoint of the bundles that a node sends: service 1 of an IPN
/// node. Other nodes send from their administrative endpoint, which is `None`
/// here.
pub fn source_eid(node_id: &NodeId) -> (r: Option<Eid>)
    ensures
        r is Some <==> source_of(node_id@) is Some,
        r is Some ==> source_of(node_id@) == Some(r->0@),
{
    match node_id {
        NodeId::Ipn(fqnn) => Some(Eid::Ipn { fqnn: *fqnn, service_number: 1 }),
        _ => None,
    }
}

/// `rand::RngExt::random_range` on the generator of `rand::rng`: a number from
/// `low` on and below `high`, and nothing else is said of it. It panics when the
/// range is empty, and otherwise only when the system's source of randomness
/// fails to seed the generator, which no argument decides.
#[verifier::external_body]
fn random_in_range(low: u32, high: u32) -> (r: u32)
    requires
        low < high,
    ensures
        low <= r < high,
{
    rand::rng().random_range(low..high)
}

/// Whether a node is of the kind that is made up: its allocator lies in the
/// private range, and its number is neither zero nor the largest one.
pub open spec fn made_up(node: NodeIdView) -> bool {
    node matches NodeIdView::Ipn(fqnn) && 0x4000_0000 <= fqnn.allocator_id < 0x8000_0000 && 1
        <= fqnn.node_number < u32::MAX
}

/// Generate a random IPN node ID for use when `--node-id` is not provided.
///
/// Uses a random allocator_id in the private range and a random non-zero node_number
/// to avoid collisions with real BPA node IDs.
pub fn random_node_id() -> (r: NodeId)
    ensures
        made_up(r@),
{
    NodeId::Ipn(
        IpnNodeId {
            allocator_id: random_in_range(0x4000_0000, 0x8000_0000),
            node_number: random_in_range(1, u32::MAX),
        },
    )
}

/// The node that a tool acts as: the one that was given, or a made up one.
pub fn choose_node_id(given: Option<NodeId>) -> (r: NodeId)
    ensures
        given is Some ==> r == given->0,
        given is None ==> made_up(r@),
{
    match given {
        Some(node_id) => node_id,
        None => random_node_id(),
    }
}

/// The low 32 bits of a number.
pub open spec fn low_half(service: u64) -> nat {
    service as nat % 0x1_0000_0000
}

/// The service that a service number given as 64 bits stands for: its low 32
/// bits.
pub fn service_number(service: u64) -> (r: u32)
    ensures
        r == low_half(service),
{
    assert(service as u32 == service % 0x1_0000_0000) by (bit_vector);
    service as u32
}

/// Different services of a node have different endpoints, as have the same
/// services of different nodes.
pub proof fn services_have_distinct_endpoints(a: NodeIdView, m: u32, b: NodeIdView, n: u32)
    requires
        service_of(a, m) == service_of(b, n),
    ensures
        a == b,
        m == n,
{
    if a is Dtn {
        let prefix = "svc-"@;
        let s = prefix + text::decimal(m as nat);
        let t = prefix + text::decimal(n as nat);
        assert(s.skip(prefix.len() as int) == text::decimal(m as nat));
        assert(t.skip(prefix.len() as int) == text::decimal(n as nat));
        text::decimal_is_injective(m as nat, n as nat);
    }
}

} // verus!
