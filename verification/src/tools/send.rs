//! The course of `bp send`: from reading the payload to the exit code.

use crate::text;
use crate::tools::exit_code::{self, ExitCode, Report};
use vstd::prelude::*;

verus! {

/// How long a bundle is given to be forwarded after it is dispatched, in seconds.
pub const FORWARDING_SECS: u64 = 5;

/// What `bp send` is to do next.
#[derive(Debug, PartialEq, Eq)]
pub enum SendAction {
    /// Read the payload from this file.
    ReadFile(String),
    /// Read the payload from the standard input.
    ReadStdin,
    /// Print a line for the user.
    Print(String),
    /// Establish the session with the remote node.
    EstablishSession,
    /// Build the bundle around the payload.
    BuildBundle,
    /// Register the service that sends the bundle.
    RegisterService,
    /// Hand the bundle to the node.
    Dispatch,
    /// Give the bundle this many seconds to be forwarded, or wait for an interrupt.
    AwaitForwarding(u64),
    /// Close the session.
    CloseSession,
    /// Exit with this code.
    Exit(ExitCode),
}

/// An action, with its text as a sequence.
#[verifier::ext_equal]
pub enum SendActionView {
    ReadFile(Seq<char>),
    ReadStdin,
    Print(Seq<char>),
    EstablishSession,
    BuildBundle,
    RegisterService,
    Dispatch,
    AwaitForwarding(u64),
    CloseSession,
    Exit(ExitCode),
}

impl View for SendAction {
    type V = SendActionView;

    open spec fn view(&self) -> SendActionView {
        match *self {
            SendAction::ReadFile(path) => SendActionView::ReadFile(path@),
            SendAction::ReadStdin => SendActionView::ReadStdin,
            SendAction::Print(line) => SendActionView::Print(line@),
            SendAction::EstablishSession => SendActionView::EstablishSession,
            SendAction::BuildBundle => SendActionView::BuildBundle,
            SendAction::RegisterService => SendActionView::RegisterService,
            SendAction::Dispatch => SendActionView::Dispatch,
            SendAction::AwaitForwarding(secs) => SendActionView::AwaitForwarding(secs),
            SendAction::CloseSession => SendActionView::CloseSession,
            SendAction::Exit(code) => SendActionView::Exit(code),
        }
    }
}

/// A list of actions, each by its view.
pub open spec fn action_views(actions: Seq<SendAction>) -> Seq<SendActionView> {
    actions.map_values(|a: SendAction| a@)
}

/// How far a run of `bp send` has come.
#[derive(Debug, PartialEq, Eq)]
pub enum SendStage {
    /// The payload is read from a file, or from the standard input.
    Reading(Option<String>),
    /// The session is being established.
    Connecting,
    /// The bundle is being built.
    Building,
    /// The sending service is being registered.
    Registering,
    /// The bundle is being handed to the node.
    Dispatching,
    /// The bundle is being forwarded.
    Forwarding,
    /// The session is being closed; the code is the one to exit with.
    Closing(ExitCode),
    /// The run has come to its end.
    Done,
}

/// A stage, with the path as a sequence.
#[verifier::ext_equal]
pub enum SendStageView {
    Reading(Option<Seq<char>>),
    Connecting,
    Building,
    Registering,
    Dispatching,
    Forwarding,
    Closing(ExitCode),
    Done,
}

impl View for SendStage {
    type V = SendStageView;

    open spec fn view(&self) -> SendStageView {
        match *self {
            SendStage::Reading(Some(path)) => SendStageView::Reading(Some(path@)),
            SendStage::Reading(None) => SendStageView::Reading(None),
            SendStage::Connecting => SendStageView::Connecting,
            SendStage::Building => SendStageView::Building,
            SendStage::Registering => SendStageView::Registering,
            SendStage::Dispatching => SendStageView::Dispatching,
            SendStage::Forwarding => SendStageView::Forwarding,
            SendStage::Closing(code) => SendStageView::Closing(code),
            SendStage::Done => SendStageView::Done,
        }
    }
}

/// A run of `bp send` as a value.
#[verifier::ext_equal]
pub struct SendModel {
    pub quiet: bool,
    pub destination: Seq<char>,
    pub payload_len: nat,
    pub stage: SendStageView,
}

/// What an event leads to: the run after it, and the actions.
pub type SendStep = (SendModel, Seq<SendActionView>);

/// The run ends with an error that is printed.
pub open spec fn failed(m: SendModel, message: Seq<char>) -> SendStep {
    (
        SendModel { stage: SendStageView::Done, ..m },
        seq![SendActionView::Print("Error: "@ + message), SendActionView::Exit(ExitCode::Error)],
    )
}

/// The run goes on with one action.
pub open spec fn proceeded(m: SendModel, stage: SendStageView, action: SendActionView) -> SendStep {
    (SendModel { stage, ..m }, seq![action])
}

/// Where the payload comes from: the file where one is given, else the standard
/// input unless it is a terminal.
pub open spec fn begun(
    quiet: bool,
    destination: Seq<char>,
    file: Option<Seq<char>>,
    stdin_is_terminal: bool,
) -> SendStep {
    let m = SendModel { quiet, destination, payload_len: 0, stage: SendStageView::Reading(file) };
    match file {
        Some(path) => (m, seq![SendActionView::ReadFile(path)]),
        None => if !stdin_is_terminal {
            (m, seq![SendActionView::ReadStdin])
        } else {
            failed(
                m,
                "No file path provided and stdin is a terminal. Provide a file path or pipe data to stdin."@,
            )
        },
    }
}

/// What is said of the payload: how many bytes go where.
pub open spec fn bytes_to(m: SendModel) -> Seq<char> {
    text::decimal(m.payload_len) + " bytes to "@ + m.destination
}

/// The payload has been read, or could not be.
pub open spec fn payload_read(
    m: SendModel,
    file: Option<Seq<char>>,
    result: Result<nat, Seq<char>>,
) -> SendStep {
    match result {
        Ok(payload_len) => {
            let next = SendModel { payload_len, stage: SendStageView::Connecting, ..m };
            if m.quiet {
                (next, seq![SendActionView::EstablishSession])
            } else {
                (
                    next,
                    seq![
                        SendActionView::Print("Sending "@ + bytes_to(next)),
                        SendActionView::EstablishSession,
                    ],
                )
            }
        },
        Err(reason) => match file {
            Some(path) => failed(m, "Cannot read file '"@ + path + "': "@ + reason),
            None => failed(m, "Failed to read from stdin: "@ + reason),
        },
    }
}

/// Whether the reason for a failed dispatch says that the bundle was refused.
pub open spec fn is_refusal(reason: Seq<char>) -> bool {
    text::occurs_in(reason, "dropped"@) || text::occurs_in(reason, "refused"@)
}

/// The bundle has been handed to the node, or could not be.
pub open spec fn dispatched(m: SendModel, result: Result<(), Seq<char>>) -> SendStep {
    match result {
        Ok(_) => proceeded(
            m,
            SendStageView::Forwarding,
            SendActionView::AwaitForwarding(FORWARDING_SECS),
        ),
        Err(reason) => if is_refusal(reason) {
            (
                SendModel { stage: SendStageView::Closing(ExitCode::TransferRefused), ..m },
                seq![
                    SendActionView::Print("Error: Bundle transfer refused: "@ + reason),
                    SendActionView::CloseSession,
                ],
            )
        } else {
            failed(m, "Failed to dispatch bundle: "@ + reason)
        },
    }
}

/// The bundle has been forwarded, or the user did not wait for it.
pub open spec fn forwarded(m: SendModel, interrupted: bool) -> SendStep {
    let success = SendActionView::Print("Sent "@ + bytes_to(m) + " successfully"@);
    (
        SendModel { stage: SendStageView::Closing(ExitCode::Success), ..m },
        if m.quiet {
            seq![SendActionView::CloseSession]
        } else if interrupted {
            seq![
                SendActionView::Print("Transfer interrupted"@),
                success,
                SendActionView::CloseSession,
            ]
        } else {
            seq![success, SendActionView::CloseSession]
        },
    )
}

/// The outcome of an outside step, with the reason of a failure as a sequence.
pub open spec fn outcome(result: Result<(), String>) -> Result<(), Seq<char>> {
    match result {
        Ok(_) => Ok(()),
        Err(reason) => Err(reason@),
    }
}

/// A text that may be missing, as a sequence.
pub open spec fn optional(s: Option<String>) -> Option<Seq<char>> {
    match s {
        Some(s) => Some(s@),
        None => None,
    }
}

/// What a run is told: how an outside step went.
#[verifier::ext_equal]
pub enum SendEvent {
    /// The payload has been read, with its length, or could not be.
    Payload(Result<nat, Seq<char>>),
    /// The session is established, or could not be.
    Session(Result<(), Seq<char>>),
    /// The bundle is built, or could not be.
    Bundle(Result<(), Seq<char>>),
    /// The sending service is registered, or could not be.
    Service(Result<(), Seq<char>>),
    /// The bundle has been handed to the node, or could not be.
    Dispatch(Result<(), Seq<char>>),
    /// The wait for forwarding is over, interrupted or not.
    Forwarding(bool),
    /// The session is closed.
    Closed,
}

/// What an event leads to. One that does not belong to the stage changes nothing.
pub open spec fn next(m: SendModel, event: SendEvent) -> SendStep {
    match (m.stage, event) {
        (SendStageView::Reading(file), SendEvent::Payload(result)) => payload_read(
            m,
            file,
            result,
        ),
        (SendStageView::Connecting, SendEvent::Session(Ok(_))) => proceeded(
            m,
            SendStageView::Building,
            SendActionView::BuildBundle,
        ),
        (SendStageView::Connecting, SendEvent::Session(Err(reason))) => failed(m, reason),
        (SendStageView::Building, SendEvent::Bundle(Ok(_))) => proceeded(
            m,
            SendStageView::Registering,
            SendActionView::RegisterService,
        ),
        (SendStageView::Building, SendEvent::Bundle(Err(reason))) => failed(m, reason),
        (SendStageView::Registering, SendEvent::Service(Ok(_))) => proceeded(
            m,
            SendStageView::Dispatching,
            SendActionView::Dispatch,
        ),
        (SendStageView::Registering, SendEvent::Service(Err(reason))) => failed(
            m,
            "Failed to register send service: "@ + reason,
        ),
        (SendStageView::Dispatching, SendEvent::Dispatch(result)) => dispatched(m, result),
        (SendStageView::Forwarding, SendEvent::Forwarding(interrupted)) => forwarded(
            m,
            interrupted,
        ),
        (SendStageView::Closing(code), SendEvent::Closed) => proceeded(
            m,
            SendStageView::Done,
            SendActionView::Exit(code),
        ),
        _ => (m, seq![]),
    }
}

/// A run of `bp send`. The caller performs the actions and reports how each of
/// the outside steps went. An event that does not belong to the stage of the run
/// changes nothing.
#[derive(Debug)]
pub struct SendRun {
    quiet: bool,
    destination: String,
    payload_len: usize,
    stage: SendStage,
}

impl View for SendRun {
    type V = SendModel;

    closed spec fn view(&self) -> SendModel {
        SendModel {
            quiet: self.quiet,
            destination: self.destination@,
            payload_len: self.payload_len as nat,
            stage: self.stage@,
        }
    }
}

impl SendRun {
    /// Starts a run, with the destination as it is shown to the user.
    pub fn start(
        quiet: bool,
        destination: String,
        file: Option<String>,
        stdin_is_terminal: bool,
    ) -> (r: (Self, Vec<SendAction>))
        ensures
            (r.0@, action_views(r.1@)) == begun(
                quiet,
                destination@,
                optional(file),
                stdin_is_terminal,
            ),
    {
        let ghost whole = begun(quiet, destination@, optional(file), stdin_is_terminal);
        match file {
            Some(path) => {
                let actions: Vec<SendAction> = vec![SendAction::ReadFile(path.clone())];
                let run = SendRun {
                    quiet,
                    destination,
                    payload_len: 0,
                    stage: SendStage::Reading(Some(path)),
                };
                assert(action_views(actions@) =~= whole.1);
                (run, actions)
            },
            None => {
                let mut run = SendRun {
                    quiet,
                    destination,
                    payload_len: 0,
                    stage: SendStage::Reading(None),
                };
                if !stdin_is_terminal {
                    let actions: Vec<SendAction> = vec![SendAction::ReadStdin];
                    assert(action_views(actions@) =~= whole.1);
                    (run, actions)
                } else {
                    let actions = run.fail(
                        "No file path provided and stdin is a terminal. Provide a file path or pipe data to stdin.",
                    );
                    (run, actions)
                }
            },
        }
    }

    /// Returns the stage of the run.
    pub fn stage(&self) -> (r: &SendStage)
        ensures
            r@ == self@.stage,
    {
        &self.stage
    }

    fn fail(&mut self, message: &str) -> (r: Vec<SendAction>)
        ensures
            (final(self)@, action_views(r@)) == failed(old(self)@, message@),
    {
        let report = exit_code::report_error(message);
        let code = report.code;
        self.stage = SendStage::Done;
        let actions: Vec<SendAction> = vec![
            SendAction::Print(report.message),
            SendAction::Exit(code),
        ];
        assert(action_views(actions@) =~= failed(old(self)@, message@).1);
        actions
    }

    fn proceed(&mut self, stage: SendStage, action: SendAction) -> (r: Vec<SendAction>)
        ensures
            (final(self)@, action_views(r@)) == proceeded(old(self)@, stage@, action@),
    {
        self.stage = stage;
        let ghost view = action@;
        let actions: Vec<SendAction> = vec![action];
        assert(action_views(actions@) =~= seq![view]);
        actions
    }

    fn ignore(&self) -> (r: Vec<SendAction>)
        ensures
            action_views(r@) == Seq::<SendActionView>::empty(),
    {
        let actions: Vec<SendAction> = Vec::new();
        assert(action_views(actions@) =~= Seq::<SendActionView>::empty());
        actions
    }

    /// Returns how many bytes go where.
    fn describe(&self, before: &str, after: &str) -> (r: String)
        ensures
            r@ == before@ + bytes_to(self@) + after@,
    {
        let mut line = String::from_str(before);
        let count = text::decimal_string(self.payload_len as u64);
        line.append(count.as_str());
        line.append(" bytes to ");
        line.append(self.destination.as_str());
        line.append(after);
        assert(line@ =~= before@ + bytes_to(self@) + after@);
        line
    }

    /// The payload has been read; the result is its length.
    pub fn on_payload(&mut self, result: Result<usize, String>) -> (r: Vec<SendAction>)
        ensures
            (final(self)@, action_views(r@)) == next(
                old(self)@,
                SendEvent::Payload(
                    match result {
                        Ok(n) => Ok(n as nat),
                        Err(reason) => Err(reason@),
                    },
                ),
            ),
    {
        if !matches!(self.stage, SendStage::Reading(_)) {
            return self.ignore();
        }
        match result {
            Ok(payload_len) => {
                self.payload_len = payload_len;
                self.stage = SendStage::Connecting;
                let mut actions: Vec<SendAction> = Vec::new();
                if !self.quiet {
                    let line = self.describe("Sending ", "");
                    proof {
                        reveal_strlit("");
                        assert(line@ =~= "Sending "@ + bytes_to(self@));
                    }
                    actions.push(SendAction::Print(line));
                }
                actions.push(SendAction::EstablishSession);
                assert(action_views(actions@) =~= payload_read(
                    old(self)@,
                    old(self)@.stage->Reading_0,
                    Ok(payload_len as nat),
                ).1);
                actions
            },
            Err(reason) => {
                let mut message = match &self.stage {
                    SendStage::Reading(Some(path)) => {
                        let mut start = text::join("Cannot read file '", path.as_str());
                        start.append("': ");
                        start
                    },
                    _ => String::from_str("Failed to read from stdin: "),
                };
                message.append(reason.as_str());
                self.fail(message.as_str())
            },
        }
    }

    /// The session with the remote node is established, or could not be.
    pub fn on_session(&mut self, result: Result<(), String>) -> (r: Vec<SendAction>)
        ensures
            (final(self)@, action_views(r@)) == next(
                old(self)@,
                SendEvent::Session(outcome(result)),
            ),
    {
        if !matches!(self.stage, SendStage::Connecting) {
            return self.ignore();
        }
        match result {
            Ok(_) => self.proceed(SendStage::Building, SendAction::BuildBundle),
            Err(reason) => self.fail(reason.as_str()),
        }
    }

    /// The bundle is built, or could not be.
    pub fn on_bundle(&mut self, result: Result<(), String>) -> (r: Vec<SendAction>)
        ensures
            (final(self)@, action_views(r@)) == next(
                old(self)@,
                SendEvent::Bundle(outcome(result)),
            ),
    {
        if !matches!(self.stage, SendStage::Building) {
            return self.ignore();
        }
        match result {
            Ok(_) => self.proceed(SendStage::Registering, SendAction::RegisterService),
            Err(reason) => self.fail(reason.as_str()),
        }
    }

    /// The sending service is registered, or could not be.
    pub fn on_service(&mut self, result: Result<(), String>) -> (r: Vec<SendAction>)
        ensures
            (final(self)@, action_views(r@)) == next(
                old(self)@,
                SendEvent::Service(outcome(result)),
            ),
    {
        if !matches!(self.stage, SendStage::Registering) {
            return self.ignore();
        }
        match result {
            Ok(_) => self.proceed(SendStage::Dispatching, SendAction::Dispatch),
            Err(reason) => {
                let message = text::join("Failed to register send service: ", reason.as_str());
                self.fail(message.as_str())
            },
        }
    }

    /// The bundle has been handed to the node, or could not be. A node that drops
    /// or refuses the bundle is told apart from other failures.
    pub fn on_dispatch(&mut self, result: Result<(), String>) -> (r: Vec<SendAction>)
        ensures
            (final(self)@, action_views(r@)) == next(
                old(self)@,
                SendEvent::Dispatch(outcome(result)),
            ),
    {
        if !matches!(self.stage, SendStage::Dispatching) {
            return self.ignore();
        }
        match result {
            Ok(_) => self.proceed(
                SendStage::Forwarding,
                SendAction::AwaitForwarding(FORWARDING_SECS),
            ),
            Err(reason) => {
                if text::contains(reason.as_str(), "dropped") || text::contains(
                    reason.as_str(),
                    "refused",
                ) {
                    let report: Report = exit_code::report_transfer_refused(reason.as_str());
                    let code = report.code;
                    self.stage = SendStage::Closing(code);
                    let actions: Vec<SendAction> = vec![
                        SendAction::Print(report.message),
                        SendAction::CloseSession,
                    ];
                    assert(action_views(actions@) =~= dispatched(old(self)@, Err(reason@)).1);
                    actions
                } else {
                    let message = text::join("Failed to dispatch bundle: ", reason.as_str());
                    self.fail(message.as_str())
                }
            },
        }
    }

    /// The time for forwarding has passed, or the user interrupted the wait.
    pub fn on_forwarding(&mut self, interrupted: bool) -> (r: Vec<SendAction>)
        ensures
            (final(self)@, action_views(r@)) == next(
                old(self)@,
                SendEvent::Forwarding(interrupted),
            ),
    {
        if !matches!(self.stage, SendStage::Forwarding) {
            return self.ignore();
        }
        let mut actions: Vec<SendAction> = Vec::new();
        if !self.quiet {
            if interrupted {
                actions.push(SendAction::Print(String::from_str("Transfer interrupted")));
            }
            actions.push(SendAction::Print(self.describe("Sent ", " successfully")));
        }
        actions.push(SendAction::CloseSession);
        self.stage = SendStage::Closing(ExitCode::Success);
        assert(action_views(actions@) =~= forwarded(old(self)@, interrupted).1);
        actions
    }

    /// The session is closed.
    pub fn on_closed(&mut self) -> (r: Vec<SendAction>)
        ensures
            (final(self)@, action_views(r@)) == next(old(self)@, SendEvent::Closed),
    {
        match self.stage {
            SendStage::Closing(code) => self.proceed(SendStage::Done, SendAction::Exit(code)),
            _ => self.ignore(),
        }
    }
}

/// A bundle that the node accepted goes on to be forwarded, a refused one has the
/// run close with the code for a refusal, and any other failure exits with the
/// code for an error.
pub proof fn exit_code_tells_the_outcome(m: SendModel, result: Result<(), Seq<char>>)
    requires
        m.stage == SendStageView::Dispatching,
    ensures
        ({
            let (next, actions) = dispatched(m, result);
            &&& next.stage == SendStageView::Forwarding <==> result is Ok
            &&& next.stage == SendStageView::Closing(ExitCode::TransferRefused) <==> (result is Err
                && is_refusal(result->Err_0))
            &&& (result is Err && !is_refusal(result->Err_0)) ==> next.stage == SendStageView::Done
                && actions.last() == SendActionView::Exit(ExitCode::Error)
        }),
{
}

} // verus!
