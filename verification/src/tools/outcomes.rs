//! What the tools do, told by what the user gave and how the outside steps went.

use crate::text;
use crate::tools::connect::{
    self, CaDirectory, ConnectAction, ConnectActionView, ConnectEvent, ConnectModel, ConnectStage,
    TlsSetup,
};
use crate::tools::exit_code::{self, ExitCode, Trouble};
use crate::tools::node::{self, Eid, EidView, IpnNodeId, NodeId, NodeIdView};
use crate::tools::recv::{
    self, Delivery, DeliveryView, RecvAction, RecvActionView, RecvEvent, RecvModel, RecvStage,
};
use crate::tools::send::{self, SendAction, SendActionView, SendEvent, SendModel, SendStageView};
use crate::tools::verbosity::Verbosity;
use vstd::prelude::*;

verus! {

// ---------------------------------------------------------------------------
// Sending
// ---------------------------------------------------------------------------
/// Whether one text stands in another.
pub open spec fn has_part(s: Seq<char>, part: Seq<char>) -> bool {
    exists|i: int|
        0 <= i && i + part.len() <= s.len() && s.skip(i).take(part.len() as int) == part
}

/// The line for the user, unless the tool is to be quiet.
pub open spec fn line(quiet: bool, message: Seq<char>) -> Seq<SendActionView> {
    if quiet {
        seq![]
    } else {
        seq![SendActionView::Print(message)]
    }
}

/// How a run of `bp send` begins: it reads the file that was given, else the
/// standard input; where that is a terminal, it ends with an error.
pub proof fn sending_begins_with_the_payload(
    quiet: bool,
    destination: Seq<char>,
    file: Option<Seq<char>>,
    stdin_is_terminal: bool,
)
    ensures
        ({
            let (m, actions) = send::begun(quiet, destination, file, stdin_is_terminal);
            &&& m.quiet == quiet
            &&& m.destination == destination
            &&& file matches Some(path) ==> m.stage == SendStageView::Reading(Some(path))
                && actions == seq![SendActionView::ReadFile(path)]
            &&& file is None && !stdin_is_terminal ==> m.stage == SendStageView::Reading(None)
                && actions == seq![SendActionView::ReadStdin]
            &&& file is None && stdin_is_terminal ==> m.stage == SendStageView::Done && actions
                == seq![
                SendActionView::Print(
                    "Error: "@
                        + "No file path provided and stdin is a terminal. Provide a file path or pipe data to stdin."@,
                ),
                SendActionView::Exit(ExitCode::Error),
            ]
        }),
{
}

/// A run of `bp send` whose steps all go well: it says what it sends, establishes
/// the session, builds the bundle, registers, hands the bundle over, waits five
/// seconds or until it is interrupted, says so, closes the session, and exits
/// with success.
pub proof fn sending_takes_its_course(m: SendModel, payload_len: nat, interrupted: bool)
    requires
        m.stage is Reading,
    ensures
        ({
            let what = text::decimal(payload_len) + " bytes to "@ + m.destination;
            let (a, s1) = send::next(m, SendEvent::Payload(Ok(payload_len)));
            let (b, s2) = send::next(a, SendEvent::Session(Ok(())));
            let (c, s3) = send::next(b, SendEvent::Bundle(Ok(())));
            let (d, s4) = send::next(c, SendEvent::Service(Ok(())));
            let (e, s5) = send::next(d, SendEvent::Dispatch(Ok(())));
            let (f, s6) = send::next(e, SendEvent::Forwarding(interrupted));
            let (g, s7) = send::next(f, SendEvent::Closed);
            &&& s1 == line(m.quiet, "Sending "@ + what) + seq![SendActionView::EstablishSession]
            &&& s2 == seq![SendActionView::BuildBundle]
            &&& s3 == seq![SendActionView::RegisterService]
            &&& s4 == seq![SendActionView::Dispatch]
            &&& s5 == seq![SendActionView::AwaitForwarding(5)]
            &&& s6 == (if interrupted {
                line(m.quiet, "Transfer interrupted"@)
            } else {
                seq![]
            }) + line(m.quiet, "Sent "@ + what + " successfully"@) + seq![
                SendActionView::CloseSession,
            ]
            &&& s7 == seq![SendActionView::Exit(ExitCode::Success)]
            &&& g.stage == SendStageView::Done
            &&& g.quiet == m.quiet && g.destination == m.destination && g.payload_len
                == payload_len
        }),
{
    let (a, s1) = send::next(m, SendEvent::Payload(Ok(payload_len)));
    let (b, s2) = send::next(a, SendEvent::Session(Ok(())));
    let (c, s3) = send::next(b, SendEvent::Bundle(Ok(())));
    let (d, s4) = send::next(c, SendEvent::Service(Ok(())));
    let (e, s5) = send::next(d, SendEvent::Dispatch(Ok(())));
    let what = text::decimal(payload_len) + " bytes to "@ + m.destination;
    assert(send::bytes_to(a) == what);
    assert(send::bytes_to(e) == what);
    assert(s1 == line(m.quiet, "Sending "@ + what) + seq![SendActionView::EstablishSession]);
}

/// A step of `bp send` that goes wrong ends the run: the error is said, with what
/// it was about, and the run exits with the code for an error. A bundle that the
/// node drops or refuses is told apart: the session is closed, and the run exits
/// with the code for that.
pub proof fn failed_step_ends_the_sending(m: SendModel, reason: Seq<char>)
    ensures
        ({
            let read = send::next(m, SendEvent::Payload(Err(reason)));
            let session = send::next(m, SendEvent::Session(Err(reason)));
            let bundle = send::next(m, SendEvent::Bundle(Err(reason)));
            let service = send::next(m, SendEvent::Service(Err(reason)));
            let dispatch = send::next(m, SendEvent::Dispatch(Err(reason)));
            let refused = has_part(reason, "dropped"@) || has_part(reason, "refused"@);
            let over = SendModel { stage: SendStageView::Done, ..m };
            let exit = SendActionView::Exit(ExitCode::Error);
            let closing = SendModel {
                stage: SendStageView::Closing(ExitCode::TransferRefused),
                ..m
            };
            &&& m.stage matches SendStageView::Reading(Some(path)) ==> read == (
                over,
                seq![
                    SendActionView::Print(
                        "Error: "@ + ("Cannot read file '"@ + path + "': "@ + reason),
                    ),
                    exit,
                ],
            )
            &&& m.stage == SendStageView::Reading(None) ==> read == (
                over,
                seq![
                    SendActionView::Print("Error: "@ + ("Failed to read from stdin: "@ + reason)),
                    exit,
                ],
            )
            &&& m.stage == SendStageView::Connecting ==> session == (
                over,
                seq![SendActionView::Print("Error: "@ + reason), exit],
            )
            &&& m.stage == SendStageView::Building ==> bundle == (
                over,
                seq![SendActionView::Print("Error: "@ + reason), exit],
            )
            &&& m.stage == SendStageView::Registering ==> service == (
                over,
                seq![
                    SendActionView::Print(
                        "Error: "@ + ("Failed to register send service: "@ + reason),
                    ),
                    exit,
                ],
            )
            &&& m.stage == SendStageView::Dispatching && !refused ==> dispatch == (
                over,
                seq![
                    SendActionView::Print("Error: "@ + ("Failed to dispatch bundle: "@ + reason)),
                    exit,
                ],
            )
            &&& m.stage == SendStageView::Dispatching && refused ==> {
                &&& dispatch == (
                    closing,
                    seq![
                        SendActionView::Print("Error: Bundle transfer refused: "@ + reason),
                        SendActionView::CloseSession,
                    ],
                )
                &&& send::next(closing, SendEvent::Closed) == (
                    over,
                    seq![SendActionView::Exit(ExitCode::TransferRefused)],
                )
            }
        }),
{
    text::part_stands_in_a_text(reason, "dropped"@);
    text::part_stands_in_a_text(reason, "refused"@);
}

/// An event that is not the one that a run of `bp send` waits for changes nothing.
pub proof fn sending_ignores_other_events(m: SendModel, event: SendEvent)
    requires
        match event {
            SendEvent::Payload(_) => !(m.stage is Reading),
            SendEvent::Session(_) => m.stage != SendStageView::Connecting,
            SendEvent::Bundle(_) => m.stage != SendStageView::Building,
            SendEvent::Service(_) => m.stage != SendStageView::Registering,
            SendEvent::Dispatch(_) => m.stage != SendStageView::Dispatching,
            SendEvent::Forwarding(_) => m.stage != SendStageView::Forwarding,
            SendEvent::Closed => !(m.stage is Closing),
        },
    ensures
        send::next(m, event) == (m, Seq::<SendActionView>::empty()),
{
}

// ---------------------------------------------------------------------------
// Receiving
// ---------------------------------------------------------------------------
/// A line for the user, unless the tool is to be quiet, and then an action.
pub open spec fn said(quiet: bool, message: Seq<char>, action: RecvActionView) -> Seq<
    RecvActionView,
> {
    (if quiet {
        Seq::empty()
    } else {
        seq![RecvActionView::Print(message)]
    }) + seq![action]
}

/// A run of `bp recv` whose steps go well: it says where it listens, establishes
/// the session, registers, and waits. An interrupt, and where the number is
/// limited enough bundles, have it close the session and exit with success.
pub proof fn receiving_takes_its_course(quiet: bool, limited: bool, service: nat, received: nat)
    ensures
        recv::begun(quiet, service).0 == RecvStage::Connecting,
        recv::begun(quiet, service).1 == said(
            quiet,
            "Listening for bundles on service "@ + text::decimal(service) + "..."@,
            RecvActionView::EstablishSession,
        ),
        recv::next(quiet, limited, RecvStage::Connecting, RecvEvent::Session(Ok(()))) == (
            RecvStage::Registering,
            seq![RecvActionView::RegisterService],
        ),
        recv::next(quiet, limited, RecvStage::Registering, RecvEvent::Service(Ok(()))) == (
            RecvStage::Receiving,
            seq![RecvActionView::AwaitBundles { limited }],
        ),
        recv::next(quiet, limited, RecvStage::Receiving, RecvEvent::Interrupt) == (
            RecvStage::Closing,
            said(quiet, "\nShutting down..."@, RecvActionView::CloseSession),
        ),
        recv::next(quiet, true, RecvStage::Receiving, RecvEvent::Limit(received)) == (
            RecvStage::Closing,
            said(
                quiet,
                "Received "@ + text::decimal(received) + " bundle(s), exiting."@,
                RecvActionView::CloseSession,
            ),
        ),
        recv::next(quiet, limited, RecvStage::Closing, RecvEvent::Closed) == (
            RecvStage::Done,
            seq![RecvActionView::Exit(ExitCode::Success)],
        ),
{
    assert(recv::begun(quiet, service).1 == said(
        quiet,
        "Listening for bundles on service "@ + text::decimal(service) + "..."@,
        RecvActionView::EstablishSession,
    ));
}

/// A step of `bp recv` that goes wrong ends the run: the error is said, and the
/// run exits with the code for an error.
pub proof fn failed_step_ends_the_receiving(quiet: bool, limited: bool, reason: Seq<char>)
    ensures
        recv::next(quiet, limited, RecvStage::Connecting, RecvEvent::Session(Err(reason))) == (
            RecvStage::Done,
            seq![
                RecvActionView::Print("Error: "@ + reason),
                RecvActionView::Exit(ExitCode::Error),
            ],
        ),
        recv::next(quiet, limited, RecvStage::Registering, RecvEvent::Service(Err(reason))) == (
            RecvStage::Done,
            seq![
                RecvActionView::Print("Error: "@ + ("Failed to register service: "@ + reason)),
                RecvActionView::Exit(ExitCode::Error),
            ],
        ),
{
}

/// An event that is not the one that a run of `bp recv` waits for changes nothing.
pub proof fn receiving_ignores_other_events(
    quiet: bool,
    limited: bool,
    stage: RecvStage,
    event: RecvEvent,
)
    requires
        match event {
            RecvEvent::Session(_) => stage != RecvStage::Connecting,
            RecvEvent::Service(_) => stage != RecvStage::Registering,
            RecvEvent::Interrupt => stage != RecvStage::Receiving,
            RecvEvent::Limit(_) => stage != RecvStage::Receiving || !limited,
            RecvEvent::Closed => stage != RecvStage::Closing,
        },
    ensures
        recv::next(quiet, limited, stage, event) == (stage, Seq::<RecvActionView>::empty()),
{
}

/// What becomes of a bundle. One whose payload was written counts, and is told of
/// unless the tool is to be quiet; with one that cannot be processed or written
/// nothing is counted, and that is always told. The tool is to stop exactly when
/// a bundle is counted with which the limit is reached.
pub proof fn bundles_are_counted_and_told_of(m: RecvModel, delivery: DeliveryView)
    ensures
        ({
            let written = match delivery {
                DeliveryView::Malformed(_) => false,
                DeliveryView::Unwritten(_) => false,
                DeliveryView::ToFile { .. } => true,
                DeliveryView::ToStdout { .. } => true,
            };
            let after = recv::counted(m, delivery);
            &&& after.received == m.received + if written {
                1int
            } else {
                0int
            }
            &&& after.quiet == m.quiet
            &&& after.count_limit == m.count_limit
            &&& recv::enough(m, delivery) <==> written && (m.count_limit matches Some(limit)
                && after.received >= limit)
            &&& recv::notice(delivery, m.quiet) == match delivery {
                DeliveryView::Malformed(reason) => Some(
                    "Failed to process received bundle: "@ + reason,
                ),
                DeliveryView::Unwritten(reason) => Some("Failed to write payload: "@ + reason),
                DeliveryView::ToFile { source, path } => if m.quiet {
                    None
                } else {
                    Some("Received bundle from "@ + source + " → "@ + path)
                },
                DeliveryView::ToStdout { source, bytes } => if m.quiet {
                    None
                } else {
                    Some(
                        "Received bundle from "@ + source + " ("@ + text::decimal(bytes)
                            + " bytes)"@,
                    )
                },
            }
        }),
{
}

// ---------------------------------------------------------------------------
// Connecting
// ---------------------------------------------------------------------------
/// Establishing a session where all goes well: the node is built, everything is
/// routed via service 1 of the node with priority 100, the node is started, the
/// convergence layer is created with the TLS options that were given and
/// registered, the peer is resolved and connected to, the session has half a
/// second to settle, and is established.
pub proof fn connecting_takes_its_course(
    peer: Seq<char>,
    node_id: NodeIdView,
    insecure: bool,
    ca: Option<CaDirectory>,
    address: Seq<char>,
)
    requires
        ca matches Some(dir) ==> dir.exists && dir.is_dir,
    ensures
        ({
            let via = match node_id {
                NodeIdView::Ipn(fqnn) => EidView::Ipn { fqnn, service_number: 1 },
                NodeIdView::Dtn(node_name) => EidView::Dtn { node_name, service_name: "svc-"@ + seq!['1'] },
                NodeIdView::LocalNode => EidView::LocalNode(1),
            };
            let setup = TlsSetup {
                require_tls: insecure || ca is Some,
                accept_self_signed: insecure,
                use_ca: ca is Some,
            };
            let (m, s0) = connect::begun(peer, node_id);
            let (a, s1) = connect::next(m, ConnectEvent::Node(Ok(())));
            let (b, s2) = connect::next(
                a,
                ConnectEvent::Route { result: Ok(()), insecure, ca },
            );
            let (c, s3) = connect::next(b, ConnectEvent::Cla(Ok(())));
            let (d, s4) = connect::next(c, ConnectEvent::Registered(Ok(())));
            let (e, s5) = connect::next(d, ConnectEvent::Peer(Ok(address)));
            let (f, s6) = connect::next(e, ConnectEvent::Connected(Ok(())));
            let (g, s7) = connect::next(f, ConnectEvent::Settled);
            &&& s0 == seq![ConnectActionView::BuildNode]
            &&& s1 == seq![ConnectActionView::AddDefaultRoute { via, priority: 100 }]
            &&& s2 == seq![ConnectActionView::StartNode, ConnectActionView::CreateCla(setup)]
            &&& s3 == seq![ConnectActionView::RegisterCla]
            &&& s4 == seq![ConnectActionView::ResolvePeer(peer)]
            &&& s5 == seq![ConnectActionView::Connect]
            &&& s6 == seq![ConnectActionView::Settle(500)]
            &&& s7 == seq![ConnectActionView::Established]
            &&& e.address == address
            &&& g.stage == ConnectStage::Done
        }),
{
    assert(text::decimal(1) == seq!['1']);
    let (m, s0) = connect::begun(peer, node_id);
    let (a, s1) = connect::next(m, ConnectEvent::Node(Ok(())));
    let via = match node_id {
        NodeIdView::Ipn(fqnn) => EidView::Ipn { fqnn, service_number: 1 },
        NodeIdView::Dtn(node_name) => EidView::Dtn { node_name, service_name: "svc-"@ + seq!['1'] },
        NodeIdView::LocalNode => EidView::LocalNode(1),
    };
    assert(m.via == via);
    assert(s1 == seq![ConnectActionView::AddDefaultRoute { via, priority: 100 }]);
}

/// A step of establishing a session that goes wrong ends it, with what failed and
/// why. A directory of CA certificates that is missing, or is none, is found when
/// the node has been started.
pub proof fn failed_step_ends_the_connecting(
    m: ConnectModel,
    reason: Seq<char>,
    insecure: bool,
    ca: Option<CaDirectory>,
)
    ensures
        ({
            let over = ConnectModel { stage: ConnectStage::Done, ..m };
            let node = connect::next(m, ConnectEvent::Node(Err(reason)));
            let route = connect::next(
                m,
                ConnectEvent::Route { result: Err(reason), insecure, ca },
            );
            let routed = connect::next(m, ConnectEvent::Route { result: Ok(()), insecure, ca });
            let cla = connect::next(m, ConnectEvent::Cla(Err(reason)));
            let registered = connect::next(m, ConnectEvent::Registered(Err(reason)));
            let resolved = connect::next(m, ConnectEvent::Peer(Err(reason)));
            let connected = connect::next(m, ConnectEvent::Connected(Err(reason)));
            &&& m.stage == ConnectStage::Building ==> node == (
                over,
                seq![ConnectActionView::Fail("Failed to build BPA: "@ + reason)],
            )
            &&& m.stage == ConnectStage::Routing ==> route == (
                over,
                seq![ConnectActionView::Fail("Failed to register default routes: "@ + reason)],
            )
            &&& m.stage == ConnectStage::Routing && ca is Some && !ca->0.exists ==> routed == (
                over,
                seq![
                    ConnectActionView::StartNode,
                    ConnectActionView::Fail("CA bundle directory not found: "@ + ca->0.path@),
                ],
            )
            &&& m.stage == ConnectStage::Routing && ca is Some && ca->0.exists && !ca->0.is_dir
                ==> routed == (
                over,
                seq![
                    ConnectActionView::StartNode,
                    ConnectActionView::Fail(
                        "CA bundle must be a directory, not a file: "@ + ca->0.path@,
                    ),
                ],
            )
            &&& m.stage == ConnectStage::Creating ==> cla == (
                over,
                seq![ConnectActionView::Fail("Failed to create TCPCLv4 CLA: "@ + reason)],
            )
            &&& m.stage == ConnectStage::Registering ==> registered == (
                over,
                seq![ConnectActionView::Fail("Failed to register CLA: "@ + reason)],
            )
            &&& m.stage == ConnectStage::Resolving ==> resolved == (
                over,
                seq![
                    ConnectActionView::Fail(
                        "Failed to parse peer address '"@ + m.peer + "': "@ + reason,
                    ),
                ],
            )
            &&& m.stage == ConnectStage::Connecting ==> connected == (
                over,
                seq![
                    ConnectActionView::Fail(
                        "Failed to connect to "@ + m.address + ": "@ + reason,
                    ),
                ],
            )
        }),
{
}

/// An event that is not the one that is waited for changes nothing.
pub proof fn connecting_ignores_other_events(m: ConnectModel, event: ConnectEvent)
    requires
        match event {
            ConnectEvent::Node(_) => m.stage != ConnectStage::Building,
            ConnectEvent::Route { .. } => m.stage != ConnectStage::Routing,
            ConnectEvent::Cla(_) => m.stage != ConnectStage::Creating,
            ConnectEvent::Registered(_) => m.stage != ConnectStage::Registering,
            ConnectEvent::Peer(_) => m.stage != ConnectStage::Resolving,
            ConnectEvent::Connected(_) => m.stage != ConnectStage::Connecting,
            ConnectEvent::Settled => m.stage != ConnectStage::Settling,
        },
    ensures
        connect::next(m, event) == (m, Seq::<ConnectActionView>::empty()),
{
}

// ---------------------------------------------------------------------------
// The rest
// ---------------------------------------------------------------------------
/// The services of a node by their numbers: an IPN node and the node itself have
/// them as they are, and a DTN node names them after the number. Bundles come
/// from service 1 of an IPN node.
pub proof fn services_are_numbered(
    fqnn: IpnNodeId,
    node_name: Seq<char>,
    service_number: u32,
)
    ensures
        node::service_of(NodeIdView::Ipn(fqnn), service_number) == (EidView::Ipn {
            fqnn,
            service_number,
        }),
        node::service_of(NodeIdView::Dtn(node_name), service_number) == (EidView::Dtn {
            node_name,
            service_name: "svc-"@ + text::decimal(service_number as nat),
        }),
        node::service_of(NodeIdView::LocalNode, service_number) == EidView::LocalNode(
            service_number,
        ),
        node::source_of(NodeIdView::Ipn(fqnn)) == Some(EidView::Ipn { fqnn, service_number: 1 }),
        node::source_of(NodeIdView::Dtn(node_name)) is None,
        node::source_of(NodeIdView::LocalNode) is None,
{
}

/// A made up node is an IPN node whose allocator lies in the private range, and
/// whose number is neither zero nor the largest one.
pub proof fn made_up_nodes_are_private(node: NodeIdView)
    ensures
        node::made_up(node) <==> (node matches NodeIdView::Ipn(fqnn) && {
            &&& 0x4000_0000 <= fqnn.allocator_id <= 0x7FFF_FFFF
            &&& fqnn.node_number != 0
            &&& fqnn.node_number != u32::MAX
        }),
{
}

/// Success is 0, a refused transfer 1, and any other error 2; and from the fewest
/// to the most words the levels are errors, warnings, information, debugging and
/// tracing.
pub proof fn codes_and_levels_have_their_numbers(code: ExitCode, level: Verbosity)
    ensures
        code.status() == match code {
            ExitCode::Success => 0i32,
            ExitCode::TransferRefused => 1i32,
            ExitCode::Error => 2i32,
        },
        level.rank() == match level {
            Verbosity::Error => 0nat,
            Verbosity::Warn => 1nat,
            Verbosity::Info => 2nat,
            Verbosity::Debug => 3nat,
            Verbosity::Trace => 4nat,
        },
{
}

/// What is said of a trouble, and with which code a tool then exits: every line
/// starts with what it is, an error, and ends with the reason; a refused transfer
/// has its own code, and all else that of an error.
pub proof fn trouble_is_told(message: Seq<char>, place: Seq<char>, reason: Seq<char>)
    ensures
        exit_code::error_line(Trouble::Plain(message)) == "Error: "@ + message,
        exit_code::error_line(Trouble::Connection { addr: place, reason }) == "Error: "@ + (
        "Failed to connect to "@ + place + ": "@ + reason),
        exit_code::error_line(Trouble::Session { reason }) == "Error: "@ + (
        "TCPCLv4 session terminated: "@ + reason),
        exit_code::error_line(Trouble::Refusal { reason }) == "Error: Bundle transfer refused: "@
            + reason,
        exit_code::error_line(Trouble::File { path: place, reason }) == "Error: "@ + (
        "Cannot read file '"@ + place + "': "@ + reason),
        exit_code::error_code(Trouble::Plain(message)) == ExitCode::Error,
        exit_code::error_code(Trouble::Connection { addr: place, reason }) == ExitCode::Error,
        exit_code::error_code(Trouble::Session { reason }) == ExitCode::Error,
        exit_code::error_code(Trouble::Refusal { reason }) == ExitCode::TransferRefused,
        exit_code::error_code(Trouble::File { path: place, reason }) == ExitCode::Error,
{
}

/// A service number of 64 bits is cut to the low half of its bits: what is cut off
/// is a multiple of their range, and a number that fits stays as it is.
pub proof fn service_numbers_are_cut(service: u64)
    ensures
        0 <= node::low_half(service) <= u32::MAX,
        exists|high: int|
            0 <= high && service == #[trigger] (high * 0x1_0000_0000) + node::low_half(service),
        service <= u32::MAX ==> node::low_half(service) == service,
{
    let high: int = service as int / 0x1_0000_0000;
    assert(service == (high * 0x1_0000_0000) + node::low_half(service));
}

/// Actions, and what the tools are told, are seen as they are.
pub proof fn tool_actions_are_seen_as_they_are(
    sends: Seq<SendAction>,
    recvs: Seq<RecvAction>,
    connects: Seq<ConnectAction>,
    i: int,
)
    ensures
        send::action_views(sends).len() == sends.len(),
        0 <= i < sends.len() ==> send::action_views(sends)[i] == match sends[i] {
            SendAction::ReadFile(path) => SendActionView::ReadFile(path@),
            SendAction::ReadStdin => SendActionView::ReadStdin,
            SendAction::Print(line) => SendActionView::Print(line@),
            SendAction::EstablishSession => SendActionView::EstablishSession,
            SendAction::BuildBundle => SendActionView::BuildBundle,
            SendAction::RegisterService => SendActionView::RegisterService,
            SendAction::Dispatch => SendActionView::Dispatch,
            SendAction::AwaitForwarding(secs) => SendActionView::AwaitForwarding(secs),
            SendAction::CloseSession => SendActionView::CloseSession,
            SendAction::Exit(code) => SendActionView::Exit(code),
        },
        recv::action_views(recvs).len() == recvs.len(),
        0 <= i < recvs.len() ==> recv::action_views(recvs)[i] == match recvs[i] {
            RecvAction::Print(line) => RecvActionView::Print(line@),
            RecvAction::EstablishSession => RecvActionView::EstablishSession,
            RecvAction::RegisterService => RecvActionView::RegisterService,
            RecvAction::AwaitBundles { limited } => RecvActionView::AwaitBundles { limited },
            RecvAction::CloseSession => RecvActionView::CloseSession,
            RecvAction::Exit(code) => RecvActionView::Exit(code),
        },
        connect::action_views(connects).len() == connects.len(),
        0 <= i < connects.len() ==> connect::action_views(connects)[i] == match connects[i] {
            ConnectAction::BuildNode => ConnectActionView::BuildNode,
            ConnectAction::AddDefaultRoute { via, priority } =>
                ConnectActionView::AddDefaultRoute { via: via@, priority },
            ConnectAction::StartNode => ConnectActionView::StartNode,
            ConnectAction::CreateCla(setup) => ConnectActionView::CreateCla(setup),
            ConnectAction::RegisterCla => ConnectActionView::RegisterCla,
            ConnectAction::ResolvePeer(peer) => ConnectActionView::ResolvePeer(peer@),
            ConnectAction::Connect => ConnectActionView::Connect,
            ConnectAction::Settle(millis) => ConnectActionView::Settle(millis),
            ConnectAction::Established => ConnectActionView::Established,
            ConnectAction::Fail(message) => ConnectActionView::Fail(message@),
        },
{
}

/// What the tools are told is seen as it is.
pub proof fn tool_events_are_seen_as_they_are(
    result: Result<(), String>,
    text: Option<String>,
    delivery: Delivery,
    node_id: NodeId,
    eid: Eid,
)
    ensures
        send::outcome(result) is Ok <==> result is Ok,
        result matches Err(reason) ==> send::outcome(result) == Err::<(), Seq<char>>(reason@),
        send::optional(text) is Some <==> text is Some,
        text matches Some(s) ==> send::optional(text) == Some(s@),
        delivery@ == match delivery {
            Delivery::Malformed(reason) => DeliveryView::Malformed(reason@),
            Delivery::Unwritten(reason) => DeliveryView::Unwritten(reason@),
            Delivery::ToFile { source, path } => DeliveryView::ToFile {
                source: source@,
                path: path@,
            },
            Delivery::ToStdout { source, bytes } => DeliveryView::ToStdout {
                source: source@,
                bytes: bytes as nat,
            },
        },
        node_id@ == match node_id {
            NodeId::Ipn(fqnn) => NodeIdView::Ipn(fqnn),
            NodeId::Dtn(name) => NodeIdView::Dtn(name@),
            NodeId::LocalNode => NodeIdView::LocalNode,
        },
        eid@ == match eid {
            Eid::Ipn { fqnn, service_number } => EidView::Ipn { fqnn, service_number },
            Eid::Dtn { node_name, service_name } => EidView::Dtn {
                node_name: node_name@,
                service_name: service_name@,
            },
            Eid::LocalNode(service_number) => EidView::LocalNode(service_number),
        },
{
}

} // verus!
