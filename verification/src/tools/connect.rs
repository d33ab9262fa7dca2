//! The course of establishing a session with a remote node.

use crate::text;
use crate::tools::node::{self, Eid, EidView, NodeId, NodeIdView};
use crate::tools::send;
use vstd::prelude::*;

verus! {

/// How long the session is given to settle after it is connected, in milliseconds.
pub const SETTLE_MILLIS: u64 = 500;

/// The priority of the default route.
pub const ROUTE_PRIORITY: u32 = 100;

/// A directory of CA certificates, as it was found.
#[derive(Debug, PartialEq, Eq)]
pub struct CaDirectory {
    /// The path, as shown to the user.
    pub path: String,
    /// Whether the path exists.
    pub exists: bool,
    /// Whether the path is a directory.
    pub is_dir: bool,
}

/// How TLS is to be set up.
#[derive(Debug, Clone, Copy, PartialEq, Eq, Structural)]
pub struct TlsSetup {
    /// Whether sessions must use TLS. TLS is set up only then.
    pub require_tls: bool,
    /// Whether self-signed certificates are accepted.
    pub accept_self_signed: bool,
    /// Whether the given CA certificates are used.
    pub use_ca: bool,
}

/// How TLS is to be set up, or why it cannot be. TLS is required where either
/// option was given.
pub open spec fn tls_plan(insecure: bool, ca: Option<CaDirectory>) -> Result<TlsSetup, Seq<char>> {
    match ca {
        Some(dir) => if !dir.exists {
            Err("CA bundle directory not found: "@ + dir.path@)
        } else if !dir.is_dir {
            Err("CA bundle must be a directory, not a file: "@ + dir.path@)
        } else {
            Ok(TlsSetup { require_tls: true, accept_self_signed: insecure, use_ca: true })
        },
        None => Ok(
            TlsSetup { require_tls: insecure, accept_self_signed: insecure, use_ca: false },
        ),
    }
}

/// Returns how TLS is to be set up, given `--tls-insecure` and `--tls-ca`.
pub fn tls_setup(insecure: bool, ca: &Option<CaDirectory>) -> (r: Result<TlsSetup, String>)
    ensures
        match r {
            Ok(setup) => tls_plan(insecure, *ca) == Ok::<TlsSetup, Seq<char>>(setup),
            Err(message) => tls_plan(insecure, *ca) == Err::<TlsSetup, Seq<char>>(message@),
        },
{
    match ca {
        Some(dir) => {
            if !dir.exists {
                return Err(text::join("CA bundle directory not found: ", dir.path.as_str()));
            }
            if !dir.is_dir {
                return Err(
                    text::join("CA bundle must be a directory, not a file: ", dir.path.as_str()),
                );
            }
            Ok(TlsSetup { require_tls: true, accept_self_signed: insecure, use_ca: true })
        },
        None => Ok(
            TlsSetup { require_tls: insecure, accept_self_signed: insecure, use_ca: false },
        ),
    }
}

/// What is to be done next to establish the session.
#[derive(Debug, PartialEq, Eq)]
pub enum ConnectAction {
    /// Build the local node.
    BuildNode,
    /// Register a route that forwards everything via this endpoint.
    AddDefaultRoute {
        /// The endpoint to forward to.
        via: Eid,
        /// The priority of the route.
        priority: u32,
    },
    /// Start the local node.
    StartNode,
    /// Create the convergence layer with this TLS setup, without a listener.
    CreateCla(TlsSetup),
    /// Register the convergence layer with the node.
    RegisterCla,
    /// Parse this peer address.
    ResolvePeer(String),
    /// Connect to the peer.
    Connect,
    /// Wait this many milliseconds for the session to be registered.
    Settle(u64),
    /// The session is established.
    Established,
    /// The session cannot be established, for this reason.
    Fail(String),
}

/// An action, with its texts as sequences.
#[verifier::ext_equal]
pub enum ConnectActionView {
    BuildNode,
    AddDefaultRoute { via: EidView, priority: u32 },
    StartNode,
    CreateCla(TlsSetup),
    RegisterCla,
    ResolvePeer(Seq<char>),
    Connect,
    Settle(u64),
    Established,
    Fail(Seq<char>),
}

impl View for ConnectAction {
    type V = ConnectActionView;

    open spec fn view(&self) -> ConnectActionView {
        match *self {
            ConnectAction::BuildNode => ConnectActionView::BuildNode,
            ConnectAction::AddDefaultRoute { via, priority } =>
                ConnectActionView::AddDefaultRoute { via: via@, priority },
            ConnectAction::StartNode => ConnectActionView::StartNode,
            ConnectAction::CreateCla(setup) => ConnectActionView::CreateCla(setup),
            ConnectAction::RegisterCla => ConnectActionView::RegisterCla,
            ConnectAction::ResolvePeer(peer) => ConnectActionView::ResolvePeer(peer@),
            ConnectAction::Connect => ConnectActionView::Connect,
            ConnectAction::Settle(millis) => ConnectActionView::Settle(millis),
            ConnectAction::Established => ConnectActionView::Established,
            ConnectAction::Fail(message) => ConnectActionView::Fail(message@),
        }
    }
}

/// A list of actions, each by its view.
pub open spec fn action_views(actions: Seq<ConnectAction>) -> Seq<ConnectActionView> {
    actions.map_values(|a: ConnectAction| a@)
}

/// How far the session has come.
#[derive(Debug, Clone, Copy, PartialEq, Eq, Structural)]
pub enum ConnectStage {
    /// The local node is being built.
    Building,
    /// The default route is being registered.
    Routing,
    /// The convergence layer is being created.
    Creating,
    /// The convergence layer is being registered.
    Registering,
    /// The peer address is being parsed.
    Resolving,
    /// The peer is being connected to.
    Connecting,
    /// The session is settling.
    Settling,
    /// The session is established, or cannot be.
    Done,
}

/// The establishing of a session as a value.
#[verifier::ext_equal]
pub struct ConnectModel {
    /// The endpoint that the default route forwards to.
    pub via: EidView,
    /// The peer, as the user gave it.
    pub peer: Seq<char>,
    /// The address of the peer, once it is known.
    pub address: Seq<char>,
    pub stage: ConnectStage,
}

/// What an event leads to: the session after it, and the actions.
pub type ConnectStep = (ConnectModel, Seq<ConnectActionView>);

/// The session cannot be established.
pub open spec fn failed(m: ConnectModel, message: Seq<char>) -> ConnectStep {
    (ConnectModel { stage: ConnectStage::Done, ..m }, seq![ConnectActionView::Fail(message)])
}

/// The next step after an outside one that went well or not.
pub open spec fn after(
    m: ConnectModel,
    result: Result<(), Seq<char>>,
    failure: Seq<char>,
    stage: ConnectStage,
    action: ConnectActionView,
) -> ConnectStep {
    match result {
        Ok(_) => (ConnectModel { stage, ..m }, seq![action]),
        Err(reason) => failed(m, failure + reason),
    }
}

/// The default route is registered: the node is started, and with TLS set up
/// the convergence layer is created.
pub open spec fn routed(
    m: ConnectModel,
    result: Result<(), Seq<char>>,
    insecure: bool,
    ca: Option<CaDirectory>,
) -> ConnectStep {
    match result {
        Ok(_) => match tls_plan(insecure, ca) {
            Ok(setup) => (
                ConnectModel { stage: ConnectStage::Creating, ..m },
                seq![ConnectActionView::StartNode, ConnectActionView::CreateCla(setup)],
            ),
            Err(message) => (
                ConnectModel { stage: ConnectStage::Done, ..m },
                seq![ConnectActionView::StartNode, ConnectActionView::Fail(message)],
            ),
        },
        Err(reason) => failed(m, "Failed to register default routes: "@ + reason),
    }
}

/// The peer address is parsed: it is connected to.
pub open spec fn resolved(m: ConnectModel, result: Result<Seq<char>, Seq<char>>) -> ConnectStep {
    match result {
        Ok(address) => (
            ConnectModel { address, stage: ConnectStage::Connecting, ..m },
            seq![ConnectActionView::Connect],
        ),
        Err(reason) => failed(m, "Failed to parse peer address '"@ + m.peer + "': "@ + reason),
    }
}

/// What the establishing of a session is told: how an outside step went.
#[verifier::ext_equal]
pub enum ConnectEvent {
    /// The local node is built, or could not be.
    Node(Result<(), Seq<char>>),
    /// The default route is registered, or could not be, with the TLS options.
    Route { result: Result<(), Seq<char>>, insecure: bool, ca: Option<CaDirectory> },
    /// The convergence layer is created, or could not be.
    Cla(Result<(), Seq<char>>),
    /// The convergence layer is registered, or could not be.
    Registered(Result<(), Seq<char>>),
    /// The peer address is parsed, or could not be.
    Peer(Result<Seq<char>, Seq<char>>),
    /// The peer is connected, or could not be.
    Connected(Result<(), Seq<char>>),
    /// The session has had its time to settle.
    Settled,
}

/// What an event leads to. One that does not belong to the stage changes nothing.
pub open spec fn next(m: ConnectModel, event: ConnectEvent) -> ConnectStep {
    match (m.stage, event) {
        (ConnectStage::Building, ConnectEvent::Node(result)) => after(
            m,
            result,
            "Failed to build BPA: "@,
            ConnectStage::Routing,
            ConnectActionView::AddDefaultRoute { via: m.via, priority: ROUTE_PRIORITY },
        ),
        (ConnectStage::Routing, ConnectEvent::Route { result, insecure, ca }) => routed(
            m,
            result,
            insecure,
            ca,
        ),
        (ConnectStage::Creating, ConnectEvent::Cla(result)) => after(
            m,
            result,
            "Failed to create TCPCLv4 CLA: "@,
            ConnectStage::Registering,
            ConnectActionView::RegisterCla,
        ),
        (ConnectStage::Registering, ConnectEvent::Registered(result)) => after(
            m,
            result,
            "Failed to register CLA: "@,
            ConnectStage::Resolving,
            ConnectActionView::ResolvePeer(m.peer),
        ),
        (ConnectStage::Resolving, ConnectEvent::Peer(result)) => resolved(m, result),
        (ConnectStage::Connecting, ConnectEvent::Connected(result)) => after(
            m,
            result,
            "Failed to connect to "@ + m.address + ": "@,
            ConnectStage::Settling,
            ConnectActionView::Settle(SETTLE_MILLIS),
        ),
        (ConnectStage::Settling, ConnectEvent::Settled) => (
            ConnectModel { stage: ConnectStage::Done, ..m },
            seq![ConnectActionView::Established],
        ),
        _ => (m, seq![]),
    }
}

/// How the establishing of a session begins.
pub open spec fn begun(peer: Seq<char>, node_id: NodeIdView) -> ConnectStep {
    (
        ConnectModel {
            via: node::service_of(node_id, 1),
            peer,
            address: Seq::empty(),
            stage: ConnectStage::Building,
        },
        seq![ConnectActionView::BuildNode],
    )
}

/// The establishing of a session. The caller performs the actions and reports
/// how each of them went. An event that does not belong to the stage changes
/// nothing.
#[derive(Debug)]
pub struct ConnectRun {
    via: Eid,
    peer: String,
    address: String,
    stage: ConnectStage,
}

impl View for ConnectRun {
    type V = ConnectModel;

    closed spec fn view(&self) -> ConnectModel {
        ConnectModel {
            via: self.via@,
            peer: self.peer@,
            address: self.address@,
            stage: self.stage,
        }
    }
}

impl ConnectRun {
    /// Starts to establish a session with the peer, acting as the given node.
    ///
    /// Everything is forwarded via service 1 of the node, not via service 0:
    /// that is the administrative endpoint, which is delivered to locally.
    pub fn start(peer: String, node_id: &NodeId) -> (r: (Self, Vec<ConnectAction>))
        ensures
            (r.0@, action_views(r.1@)) == begun(peer@, node_id@),
    {
        let run = ConnectRun {
            via: node::node_id_to_service_eid(node_id, 1),
            peer,
            address: String::new(),
            stage: ConnectStage::Building,
        };
        let actions: Vec<ConnectAction> = vec![ConnectAction::BuildNode];
        assert(action_views(actions@) =~= seq![ConnectActionView::BuildNode]);
        (run, actions)
    }

    /// Returns how far the session has come.
    pub fn stage(&self) -> (r: ConnectStage)
        ensures
            r == self@.stage,
    {
        self.stage
    }

    fn fail(&mut self, message: String) -> (r: Vec<ConnectAction>)
        ensures
            (final(self)@, action_views(r@)) == failed(old(self)@, message@),
    {
        let ghost whole = failed(self@, message@);
        self.stage = ConnectStage::Done;
        let actions: Vec<ConnectAction> = vec![ConnectAction::Fail(message)];
        assert(action_views(actions@) =~= whole.1);
        actions
    }

    fn ignore(&self) -> (r: Vec<ConnectAction>)
        ensures
            action_views(r@) == Seq::<ConnectActionView>::empty(),
    {
        let actions: Vec<ConnectAction> = Vec::new();
        assert(action_views(actions@) =~= Seq::<ConnectActionView>::empty());
        actions
    }

    fn next(
        &mut self,
        result: Result<(), String>,
        failure: &str,
        stage: ConnectStage,
        action: ConnectAction,
    ) -> (r: Vec<ConnectAction>)
        ensures
            (final(self)@, action_views(r@)) == after(
                old(self)@,
                send::outcome(result),
                failure@,
                stage,
                action@,
            ),
    {
        match result {
            Ok(_) => {
                self.stage = stage;
                let ghost view = action@;
                let actions: Vec<ConnectAction> = vec![action];
                assert(action_views(actions@) =~= seq![view]);
                actions
            },
            Err(reason) => self.fail(text::join(failure, reason.as_str())),
        }
    }

    /// The local node is built, or could not be.
    pub fn on_node(&mut self, result: Result<(), String>) -> (r: Vec<ConnectAction>)
        ensures
            (final(self)@, action_views(r@)) == next(
                old(self)@,
                ConnectEvent::Node(send::outcome(result)),
            ),
    {
        if self.stage != ConnectStage::Building {
            return self.ignore();
        }
        let via = self.via.clone();
        self.next(
            result,
            "Failed to build BPA: ",
            ConnectStage::Routing,
            ConnectAction::AddDefaultRoute { via, priority: ROUTE_PRIORITY },
        )
    }

    /// The default route is registered, or could not be. Where a directory of CA
    /// certificates was given, the caller tells how it found it.
    pub fn on_route(
        &mut self,
        result: Result<(), String>,
        insecure: bool,
        ca: &Option<CaDirectory>,
    ) -> (r: Vec<ConnectAction>)
        ensures
            (final(self)@, action_views(r@)) == next(
                old(self)@,
                ConnectEvent::Route { result: send::outcome(result), insecure, ca: *ca },
            ),
    {
        if self.stage != ConnectStage::Routing {
            return self.ignore();
        }
        match result {
            Ok(_) => {
                let ghost whole = routed(self@, Ok(()), insecure, *ca);
                match tls_setup(insecure, ca) {
                    Ok(setup) => {
                        self.stage = ConnectStage::Creating;
                        let actions: Vec<ConnectAction> = vec![
                            ConnectAction::StartNode,
                            ConnectAction::CreateCla(setup),
                        ];
                        assert(action_views(actions@) =~= whole.1);
                        actions
                    },
                    Err(message) => {
                        self.stage = ConnectStage::Done;
                        let actions: Vec<ConnectAction> = vec![
                            ConnectAction::StartNode,
                            ConnectAction::Fail(message),
                        ];
                        assert(action_views(actions@) =~= whole.1);
                        actions
                    },
                }
            },
            Err(reason) => self.fail(
                text::join("Failed to register default routes: ", reason.as_str()),
            ),
        }
    }

    /// The convergence layer is created, or could not be.
    pub fn on_cla(&mut self, result: Result<(), String>) -> (r: Vec<ConnectAction>)
        ensures
            (final(self)@, action_views(r@)) == next(
                old(self)@,
                ConnectEvent::Cla(send::outcome(result)),
            ),
    {
        if self.stage != ConnectStage::Creating {
            return self.ignore();
        }
        self.next(
            result,
            "Failed to create TCPCLv4 CLA: ",
            ConnectStage::Registering,
            ConnectAction::RegisterCla,
        )
    }

    /// The convergence layer is registered, or could not be.
    pub fn on_registered(&mut self, result: Result<(), String>) -> (r: Vec<ConnectAction>)
        ensures
            (final(self)@, action_views(r@)) == next(
                old(self)@,
                ConnectEvent::Registered(send::outcome(result)),
            ),
    {
        if self.stage != ConnectStage::Registering {
            return self.ignore();
        }
        let peer = self.peer.clone();
        self.next(
            result,
            "Failed to register CLA: ",
            ConnectStage::Resolving,
            ConnectAction::ResolvePeer(peer),
        )
    }

    /// The peer address is parsed, or could not be. The address is given as it is
    /// shown to the user.
    pub fn on_peer(&mut self, result: Result<String, String>) -> (r: Vec<ConnectAction>)
        ensures
            (final(self)@, action_views(r@)) == next(
                old(self)@,
                ConnectEvent::Peer(
                    match result {
                        Ok(address) => Ok(address@),
                        Err(reason) => Err(reason@),
                    },
                ),
            ),
    {
        if self.stage != ConnectStage::Resolving {
            return self.ignore();
        }
        match result {
            Ok(address) => {
                self.address = address;
                self.stage = ConnectStage::Connecting;
                let actions: Vec<ConnectAction> = vec![ConnectAction::Connect];
                assert(action_views(actions@) =~= seq![ConnectActionView::Connect]);
                actions
            },
            Err(reason) => {
                let mut message = text::join("Failed to parse peer address '", self.peer.as_str());
                message.append("': ");
                message.append(reason.as_str());
                self.fail(message)
            },
        }
    }

    /// The peer is connected, or could not be.
    pub fn on_connected(&mut self, result: Result<(), String>) -> (r: Vec<ConnectAction>)
        ensures
            (final(self)@, action_views(r@)) == next(
                old(self)@,
                ConnectEvent::Connected(send::outcome(result)),
            ),
    {
        if self.stage != ConnectStage::Connecting {
            return self.ignore();
        }
        let mut failure = text::join("Failed to connect to ", self.address.as_str());
        failure.append(": ");
        self.next(
            result,
            failure.as_str(),
            ConnectStage::Settling,
            ConnectAction::Settle(SETTLE_MILLIS),
        )
    }

    /// The session has had its time to settle.
    pub fn on_settled(&mut self) -> (r: Vec<ConnectAction>)
        ensures
            (final(self)@, action_views(r@)) == next(old(self)@, ConnectEvent::Settled),
    {
        if self.stage != ConnectStage::Settling {
            return self.ignore();
        }
        self.stage = ConnectStage::Done;
        let actions: Vec<ConnectAction> = vec![ConnectAction::Established];
        assert(action_views(actions@) =~= seq![ConnectActionView::Established]);
        actions
    }
}

/// TLS is required exactly when one of its options was given, and then a
/// directory of CA certificates that was given is used.
pub proof fn tls_is_required_when_asked_for(insecure: bool, ca: Option<CaDirectory>)
    ensures
        tls_plan(insecure, ca) matches Ok(setup) ==> {
            &&& setup.require_tls <==> insecure || ca is Some
            &&& setup.accept_self_signed <==> insecure
            &&& setup.use_ca <==> ca is Some
        },
        tls_plan(insecure, ca) is Err <==> ca is Some && !(ca->0.exists && ca->0.is_dir),
{
}

} // verus!
