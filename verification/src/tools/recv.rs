//! The course of `bp recv`, and the service that counts the bundles.

use crate::text;
use crate::tools::exit_code::{self, ExitCode};
use crate::tools::send;
use vstd::prelude::*;

verus! {

// ---------------------------------------------------------------------------
// Service
// ---------------------------------------------------------------------------
/// What became of a bundle that arrived.
#[derive(Debug, PartialEq, Eq)]
pub enum Delivery {
    /// The payload could not be taken out of the bundle.
    Malformed(String),
    /// The payload could not be written.
    Unwritten(String),
    /// The payload was written to a file.
    ToFile {
        /// The source of the bundle, as shown to the user.
        source: String,
        /// The file, as shown to the user.
        path: String,
    },
    /// The payload was written to the standard output.
    ToStdout {
        /// The source of the bundle, as shown to the user.
        source: String,
        /// The length of the payload.
        bytes: usize,
    },
}

/// What became of a bundle, with the texts as sequences.
#[verifier::ext_equal]
pub enum DeliveryView {
    Malformed(Seq<char>),
    Unwritten(Seq<char>),
    ToFile { source: Seq<char>, path: Seq<char> },
    ToStdout { source: Seq<char>, bytes: nat },
}

impl View for Delivery {
    type V = DeliveryView;

    open spec fn view(&self) -> DeliveryView {
        match *self {
            Delivery::Malformed(reason) => DeliveryView::Malformed(reason@),
            Delivery::Unwritten(reason) => DeliveryView::Unwritten(reason@),
            Delivery::ToFile { source, path } => DeliveryView::ToFile {
                source: source@,
                path: path@,
            },
            Delivery::ToStdout { source, bytes } => DeliveryView::ToStdout {
                source: source@,
                bytes: bytes as nat,
            },
        }
    }
}

/// Whether the payload was written.
pub open spec fn written(delivery: DeliveryView) -> bool {
    delivery is ToFile || delivery is ToStdout
}

/// The line to print about a bundle. A failure is always said; what went well
/// is not, if the tool is to be quiet.
pub open spec fn notice(delivery: DeliveryView, quiet: bool) -> Option<Seq<char>> {
    match delivery {
        DeliveryView::Malformed(reason) => Some("Failed to process received bundle: "@ + reason),
        DeliveryView::Unwritten(reason) => Some("Failed to write payload: "@ + reason),
        DeliveryView::ToFile { source, path } => if quiet {
            None
        } else {
            Some("Received bundle from "@ + source + " → "@ + path)
        },
        DeliveryView::ToStdout { source, bytes } => if quiet {
            None
        } else {
            Some("Received bundle from "@ + source + " ("@ + text::decimal(bytes) + " bytes)"@)
        },
    }
}

/// A service that counts the bundles whose payloads were written, and tells when
/// there are enough of them.
#[derive(Debug)]
pub struct RecvService {
    /// Whether to suppress non-error output.
    quiet: bool,
    /// Number of bundles received so far.
    received: u32,
    /// Optional count limit: when reached, signals completion.
    count_limit: Option<u32>,
}

/// The counting service as a value.
#[verifier::ext_equal]
pub struct RecvModel {
    pub quiet: bool,
    pub received: nat,
    pub count_limit: Option<u32>,
}

impl View for RecvService {
    type V = RecvModel;

    closed spec fn view(&self) -> RecvModel {
        RecvModel {
            quiet: self.quiet,
            received: self.received as nat,
            count_limit: self.count_limit,
        }
    }
}

/// The service after a bundle: one that was written counts.
pub open spec fn counted(m: RecvModel, delivery: DeliveryView) -> RecvModel {
    if written(delivery) {
        RecvModel { received: m.received + 1, ..m }
    } else {
        m
    }
}

/// Whether the bundle has the tool stop: it counts, and there are enough now.
pub open spec fn enough(m: RecvModel, delivery: DeliveryView) -> bool {
    &&& written(delivery)
    &&& m.count_limit is Some
    &&& m.received + 1 >= m.count_limit->0
}

impl RecvService {
    /// Create a new `RecvService` with the given configuration.
    pub fn new(quiet: bool, count_limit: Option<u32>) -> (r: Self)
        ensures
            r@ == (RecvModel { quiet, received: 0, count_limit }),
    {
        RecvService { quiet, received: 0, count_limit }
    }

    /// Get the number of bundles received so far.
    pub fn received_count(&self) -> (r: u32)
        ensures
            r == self@.received,
    {
        self.received
    }

    /// Takes in what became of a bundle. Returns the line to print, and whether
    /// completion is to be signalled because the count limit is reached.
    pub fn on_receive(&mut self, delivery: Delivery) -> (r: (Option<String>, bool))
        requires
            counted(old(self)@, delivery@).received <= u32::MAX,
        ensures
            final(self)@ == counted(old(self)@, delivery@),
            send::optional(r.0) == notice(delivery@, old(self)@.quiet),
            r.1 == enough(old(self)@, delivery@),
    {
        let line = match delivery {
            Delivery::Malformed(reason) => {
                return (
                    Some(text::join("Failed to process received bundle: ", reason.as_str())),
                    false,
                );
            },
            Delivery::Unwritten(reason) => {
                return (Some(text::join("Failed to write payload: ", reason.as_str())), false);
            },
            Delivery::ToFile { source, path } => {
                if self.quiet {
                    None
                } else {
                    let mut line = text::join("Received bundle from ", source.as_str());
                    line.append(" → ");
                    line.append(path.as_str());
                    Some(line)
                }
            },
            Delivery::ToStdout { source, bytes } => {
                if self.quiet {
                    None
                } else {
                    let count = text::decimal_string(bytes as u64);
                    let mut line = text::join("Received bundle from ", source.as_str());
                    line.append(" (");
                    line.append(count.as_str());
                    line.append(" bytes)");
                    Some(line)
                }
            },
        };
        // Increment received count
        self.received = self.received + 1;
        // Signal completion if count limit reached
        let limit_reached: bool = match self.count_limit {
            Some(limit) => self.received >= limit,
            None => false,
        };
        (line, limit_reached)
    }
}

/// A service that is told of bundles, and how many of them were written.
pub open spec fn written_count(deliveries: Seq<DeliveryView>) -> nat
    decreases deliveries.len(),
{
    if deliveries.len() == 0 {
        0
    } else {
        written_count(deliveries.drop_last()) + if written(deliveries.last()) {
            1nat
        } else {
            0nat
        }
    }
}

/// The service after a row of bundles.
pub open spec fn all_counted(m: RecvModel, deliveries: Seq<DeliveryView>) -> RecvModel
    decreases deliveries.len(),
{
    if deliveries.len() == 0 {
        m
    } else {
        counted(all_counted(m, deliveries.drop_last()), deliveries.last())
    }
}

/// The count is the number of bundles whose payloads were written, and
/// completion is signalled at every written bundle with which there are enough.
pub proof fn count_is_the_number_written(
    quiet: bool,
    count_limit: Option<u32>,
    deliveries: Seq<DeliveryView>,
    next: DeliveryView,
)
    ensures
        ({
            let m = all_counted(RecvModel { quiet, received: 0, count_limit }, deliveries);
            &&& m == (RecvModel { quiet, received: written_count(deliveries), count_limit })
            &&& enough(m, next) <==> written(next) && count_limit is Some && written_count(
                deliveries,
            ) + 1 >= count_limit->0
        }),
    decreases deliveries.len(),
{
    if deliveries.len() > 0 {
        count_is_the_number_written(quiet, count_limit, deliveries.drop_last(), next);
    }
}

// ---------------------------------------------------------------------------
// Run
// ---------------------------------------------------------------------------
/// What `bp recv` is to do next.
#[derive(Debug, PartialEq, Eq)]
pub enum RecvAction {
    /// Print a line for the user.
    Print(String),
    /// Establish the session with the remote node.
    EstablishSession,
    /// Register the receiving service.
    RegisterService,
    /// Wait for an interrupt, and, if limited, for enough bundles.
    AwaitBundles {
        /// Whether the number of bundles is limited.
        limited: bool,
    },
    /// Close the session.
    CloseSession,
    /// Exit with this code.
    Exit(ExitCode),
}

/// An action, with its text as a sequence.
#[verifier::ext_equal]
pub enum RecvActionView {
    Print(Seq<char>),
    EstablishSession,
    RegisterService,
    AwaitBundles { limited: bool },
    CloseSession,
    Exit(ExitCode),
}

impl View for RecvAction {
    type V = RecvActionView;

    open spec fn view(&self) -> RecvActionView {
        match *self {
            RecvAction::Print(line) => RecvActionView::Print(line@),
            RecvAction::EstablishSession => RecvActionView::EstablishSession,
            RecvAction::RegisterService => RecvActionView::RegisterService,
            RecvAction::AwaitBundles { limited } => RecvActionView::AwaitBundles { limited },
            RecvAction::CloseSession => RecvActionView::CloseSession,
            RecvAction::Exit(code) => RecvActionView::Exit(code),
        }
    }
}

/// A list of actions, each by its view.
pub open spec fn action_views(actions: Seq<RecvAction>) -> Seq<RecvActionView> {
    actions.map_values(|a: RecvAction| a@)
}

/// How far a run of `bp recv` has come.
#[derive(Debug, Clone, Copy, PartialEq, Eq, Structural)]
pub enum RecvStage {
    /// The session is being established.
    Connecting,
    /// The receiving service is being registered.
    Registering,
    /// Bundles are being received.
    Receiving,
    /// The session is being closed.
    Closing,
    /// The run has come to its end.
    Done,
}

/// What an event leads to: the stage after it, and the actions.
pub type RecvStep = (RecvStage, Seq<RecvActionView>);

/// The lines that a tool prints unless it is to be quiet, and then one action.
pub open spec fn announced(quiet: bool, line: Seq<char>, action: RecvActionView) -> Seq<
    RecvActionView,
> {
    if quiet {
        seq![action]
    } else {
        seq![RecvActionView::Print(line), action]
    }
}

/// The run ends with an error that is printed.
pub open spec fn failed(message: Seq<char>) -> RecvStep {
    (
        RecvStage::Done,
        seq![RecvActionView::Print("Error: "@ + message), RecvActionView::Exit(ExitCode::Error)],
    )
}

/// What a run is told: how an outside step went, or what has happened.
#[verifier::ext_equal]
pub enum RecvEvent {
    /// The session is established, or could not be.
    Session(Result<(), Seq<char>>),
    /// The receiving service is registered, or could not be.
    Service(Result<(), Seq<char>>),
    /// The user interrupted the run.
    Interrupt,
    /// Enough bundles have been received.
    Limit(nat),
    /// The session is closed.
    Closed,
}

/// What an event leads to. One that does not belong to the stage changes nothing.
pub open spec fn next(quiet: bool, limited: bool, stage: RecvStage, event: RecvEvent) -> RecvStep {
    match (stage, event) {
        (RecvStage::Connecting, RecvEvent::Session(Ok(_))) => (
            RecvStage::Registering,
            seq![RecvActionView::RegisterService],
        ),
        (RecvStage::Connecting, RecvEvent::Session(Err(reason))) => failed(reason),
        (RecvStage::Registering, RecvEvent::Service(Ok(_))) => (
            RecvStage::Receiving,
            seq![RecvActionView::AwaitBundles { limited }],
        ),
        (RecvStage::Registering, RecvEvent::Service(Err(reason))) => failed(
            "Failed to register service: "@ + reason,
        ),
        (RecvStage::Receiving, RecvEvent::Interrupt) => (
            RecvStage::Closing,
            announced(quiet, "\nShutting down..."@, RecvActionView::CloseSession),
        ),
        (RecvStage::Receiving, RecvEvent::Limit(received)) => if limited {
            (
                RecvStage::Closing,
                announced(
                    quiet,
                    "Received "@ + text::decimal(received) + " bundle(s), exiting."@,
                    RecvActionView::CloseSession,
                ),
            )
        } else {
            (stage, seq![])
        },
        (RecvStage::Closing, RecvEvent::Closed) => (
            RecvStage::Done,
            seq![RecvActionView::Exit(ExitCode::Success)],
        ),
        _ => (stage, seq![]),
    }
}

/// How a run on a service begins.
pub open spec fn begun(quiet: bool, service: nat) -> RecvStep {
    (
        RecvStage::Connecting,
        announced(
            quiet,
            "Listening for bundles on service "@ + text::decimal(service) + "..."@,
            RecvActionView::EstablishSession,
        ),
    )
}

/// A run of `bp recv`. The caller performs the actions and reports how each of
/// the outside steps went. An event that does not belong to the stage of the run
/// changes nothing.
#[derive(Debug)]
pub struct RecvRun {
    /// Whether to suppress non-error output.
    pub quiet: bool,
    /// Whether the number of bundles is limited.
    pub limited: bool,
    /// How far the run has come.
    pub stage: RecvStage,
}

impl RecvRun {
    /// Starts a run on the given service.
    pub fn start(quiet: bool, service: u64, limited: bool) -> (r: (Self, Vec<RecvAction>))
        ensures
            r.0.quiet == quiet,
            r.0.limited == limited,
            (r.0.stage, action_views(r.1@)) == begun(quiet, service as nat),
    {
        let run = RecvRun { quiet, limited, stage: RecvStage::Connecting };
        let number = text::decimal_string(service);
        let mut line = text::join("Listening for bundles on service ", number.as_str());
        line.append("...");
        let actions = run.announce(line, RecvAction::EstablishSession);
        (run, actions)
    }

    fn announce(&self, line: String, action: RecvAction) -> (r: Vec<RecvAction>)
        ensures
            action_views(r@) == announced(self.quiet, line@, action@),
    {
        let ghost whole = announced(self.quiet, line@, action@);
        let mut actions: Vec<RecvAction> = Vec::new();
        if !self.quiet {
            actions.push(RecvAction::Print(line));
        }
        actions.push(action);
        assert(action_views(actions@) =~= whole);
        actions
    }

    fn fail(&mut self, message: &str) -> (r: Vec<RecvAction>)
        ensures
            *final(self) == (RecvRun { stage: RecvStage::Done, ..*old(self) }),
            action_views(r@) == failed(message@).1,
    {
        let report = exit_code::report_error(message);
        let code = report.code;
        self.stage = RecvStage::Done;
        let actions: Vec<RecvAction> = vec![
            RecvAction::Print(report.message),
            RecvAction::Exit(code),
        ];
        assert(action_views(actions@) =~= failed(message@).1);
        actions
    }

    fn proceed(&mut self, stage: RecvStage, action: RecvAction) -> (r: Vec<RecvAction>)
        ensures
            *final(self) == (RecvRun { stage, ..*old(self) }),
            action_views(r@) == seq![action@],
    {
        self.stage = stage;
        let ghost view = action@;
        let actions: Vec<RecvAction> = vec![action];
        assert(action_views(actions@) =~= seq![view]);
        actions
    }

    fn ignore(&self) -> (r: Vec<RecvAction>)
        ensures
            action_views(r@) == Seq::<RecvActionView>::empty(),
    {
        let actions: Vec<RecvAction> = Vec::new();
        assert(action_views(actions@) =~= Seq::<RecvActionView>::empty());
        actions
    }

    /// The session with the remote node is established, or could not be.
    pub fn on_session(&mut self, result: Result<(), String>) -> (r: Vec<RecvAction>)
        ensures
            final(self).quiet == old(self).quiet,
            final(self).limited == old(self).limited,
            (final(self).stage, action_views(r@)) == next(
                old(self).quiet,
                old(self).limited,
                old(self).stage,
                RecvEvent::Session(send::outcome(result)),
            ),
    {
        if self.stage != RecvStage::Connecting {
            return self.ignore();
        }
        match result {
            Ok(_) => self.proceed(RecvStage::Registering, RecvAction::RegisterService),
            Err(reason) => self.fail(reason.as_str()),
        }
    }

    /// The receiving service is registered, or could not be.
    pub fn on_service(&mut self, result: Result<(), String>) -> (r: Vec<RecvAction>)
        ensures
            final(self).quiet == old(self).quiet,
            final(self).limited == old(self).limited,
            (final(self).stage, action_views(r@)) == next(
                old(self).quiet,
                old(self).limited,
                old(self).stage,
                RecvEvent::Service(send::outcome(result)),
            ),
    {
        if self.stage != RecvStage::Registering {
            return self.ignore();
        }
        match result {
            Ok(_) => {
                let limited: bool = self.limited;
                self.proceed(RecvStage::Receiving, RecvAction::AwaitBundles { limited })
            },
            Err(reason) => {
                let message = text::join("Failed to register service: ", reason.as_str());
                self.fail(message.as_str())
            },
        }
    }

    /// The user interrupted the run.
    pub fn on_interrupt(&mut self) -> (r: Vec<RecvAction>)
        ensures
            final(self).quiet == old(self).quiet,
            final(self).limited == old(self).limited,
            (final(self).stage, action_views(r@)) == next(
                old(self).quiet,
                old(self).limited,
                old(self).stage,
                RecvEvent::Interrupt,
            ),
    {
        if self.stage != RecvStage::Receiving {
            return self.ignore();
        }
        self.stage = RecvStage::Closing;
        self.announce(String::from_str("\nShutting down..."), RecvAction::CloseSession)
    }

    /// Enough bundles have been received, where their number is limited.
    pub fn on_limit(&mut self, received: u32) -> (r: Vec<RecvAction>)
        ensures
            final(self).quiet == old(self).quiet,
            final(self).limited == old(self).limited,
            (final(self).stage, action_views(r@)) == next(
                old(self).quiet,
                old(self).limited,
                old(self).stage,
                RecvEvent::Limit(received as nat),
            ),
    {
        if self.stage != RecvStage::Receiving || !self.limited {
            return self.ignore();
        }
        self.stage = RecvStage::Closing;
        let count = text::decimal_string(received as u64);
        let mut line = text::join("Received ", count.as_str());
        line.append(" bundle(s), exiting.");
        self.announce(line, RecvAction::CloseSession)
    }

    /// The session is closed.
    pub fn on_closed(&mut self) -> (r: Vec<RecvAction>)
        ensures
            final(self).quiet == old(self).quiet,
            final(self).limited == old(self).limited,
            (final(self).stage, action_views(r@)) == next(
                old(self).quiet,
                old(self).limited,
                old(self).stage,
                RecvEvent::Closed,
            ),
    {
        if self.stage != RecvStage::Closing {
            return self.ignore();
        }
        self.proceed(RecvStage::Done, RecvAction::Exit(ExitCode::Success))
    }
}

} // verus!
